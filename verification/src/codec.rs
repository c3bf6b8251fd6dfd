use vstd::prelude::*;

verus! {

// The stores persist their contents as JSON text: one episode per log
// line, and small fixed-shape documents for metadata, snapshots and the
// whole-store save format. The encoders below emit one canonical form;
// the parsers accept exactly that form, so that everything a store wrote
// it can read back unchanged, which is proved, and anything else is
// rejected as corruption.

/// The decimal digit character for `d` (0..=9).
pub open spec fn dig_char(d: int) -> char {
    ((48 + d) as u8) as char
}

/// The lowercase hex digit character for `d` (0..=15).
pub open spec fn hex_char(d: int) -> char {
    if d < 10 {
        ((48 + d) as u8) as char
    } else {
        ((87 + d) as u8) as char
    }
}

/// Canonical decimal form of a natural number (no leading zeros).
pub open spec fn enc_nat(n: nat) -> Seq<char>
    decreases n,
{
    if n < 10 {
        seq![dig_char(n as int)]
    } else {
        enc_nat(n / 10).push(dig_char((n % 10) as int))
    }
}

/// Canonical decimal form of an integer: a sign for negatives, then the
/// magnitude.
pub open spec fn enc_int(v: int) -> Seq<char> {
    if v < 0 {
        seq!['-'] + enc_nat((-v) as nat)
    } else {
        enc_nat(v as nat)
    }
}

/// `c` is a decimal digit.
pub open spec fn is_digit(c: char) -> bool {
    48 <= c as u32 <= 57
}

/// The numeric value of a digit sequence read left to right.
pub open spec fn dec_val(s: Seq<char>) -> nat
    decreases s.len(),
{
    if s.len() == 0 {
        0
    } else {
        dec_val(s.drop_last()) * 10 + ((s.last() as u32) - 48) as nat
    }
}

/// Everything `enc_nat` emits is a digit, and reading it back yields the
/// number.
proof fn lemma_enc_nat_ok(n: nat)
    ensures
        enc_nat(n).len() >= 1,
        forall|i: int| 0 <= i < enc_nat(n).len() ==> is_digit(#[trigger] enc_nat(n)[i]),
        dec_val(enc_nat(n)) == n,
    decreases n,
{
    if n < 10 {
        assert(enc_nat(n) =~= seq![dig_char(n as int)]);
        assert(dig_char(n as int) as u32 == 48 + n);
        assert(is_digit(dig_char(n as int)));
        let s = enc_nat(n);
        assert(s.len() == 1);
        assert(s.drop_last() =~= Seq::<char>::empty());
        assert(dec_val(s.drop_last()) == 0);
        assert(s.last() == dig_char(n as int));
        assert(dec_val(s) == dec_val(s.drop_last()) * 10 + ((s.last() as u32) - 48) as nat);
        assert(dec_val(s) == n);
    } else {
        lemma_enc_nat_ok(n / 10);
        let head = enc_nat(n / 10);
        let s = enc_nat(n);
        assert(s == head.push(dig_char((n % 10) as int)));
        assert(s.drop_last() =~= head);
        assert(s.last() == dig_char((n % 10) as int));
        assert(dec_val(s) == dec_val(head) * 10 + (n % 10));
        assert forall|i: int| 0 <= i < s.len() implies is_digit(#[trigger] s[i]) by {
            if i < head.len() {
                assert(s[i] == head[i]);
            }
        }
    }
}

/// A digit string's value only grows as more digits are read.
proof fn lemma_dec_val_prefix(s: Seq<char>, m: int)
    requires
        0 <= m <= s.len(),
    ensures
        dec_val(s.take(m)) <= dec_val(s),
    decreases s.len() - m,
{
    if m < s.len() {
        lemma_dec_val_prefix(s, m + 1);
        assert(s.take(m + 1).drop_last() =~= s.take(m));
        assert(dec_val(s.take(m)) <= dec_val(s.take(m + 1)));
    } else {
        assert(s.take(m) =~= s);
    }
}

/// A number starts at position `i` of `s`: its canonical digits, bounded
/// on the right by the end of the text or a non-digit.
pub open spec fn num_at(s: Seq<char>, i: int, n: nat) -> bool {
    &&& 0 <= i
    &&& i + enc_nat(n).len() <= s.len()
    &&& s.subrange(i, i + enc_nat(n).len() as int) == enc_nat(n)
    &&& (i + enc_nat(n).len() == s.len() || !is_digit(s[i + enc_nat(n).len() as int]))
}

/// Parse a natural number at position `i`: read digits greedily,
/// rejecting overflow past `u64`. Reads back exactly what `enc_nat`
/// wrote.
pub fn parse_u64(s: &Vec<char>, i: usize) -> (r: Option<(u64, usize)>)
    requires
        i <= s@.len(),
    ensures
        r matches Some((n, j)) ==> i <= j <= s@.len(),
        forall|n: u64| #![trigger num_at(s@, i as int, n as nat)]
            num_at(s@, i as int, n as nat) ==> r == Some::<(u64, usize)>(
                (n, (i + enc_nat(n as nat).len()) as usize),
            ),
{
    let len = s.len();
    if i >= len {
        proof {
            assert forall|n: u64| !num_at(s@, i as int, n as nat) by {
                lemma_enc_nat_ok(n as nat);
            }
        }
        return None;
    }
    let c0 = s[i];
    if !(c0 as u32 >= 48 && c0 as u32 <= 57) {
        proof {
            assert forall|n: u64| !num_at(s@, i as int, n as nat) by {
                lemma_enc_nat_ok(n as nat);
                if num_at(s@, i as int, n as nat) {
                    assert(s@[i as int] == enc_nat(n as nat)[0]);
                }
            }
        }
        return None;
    }
    let mut acc: u64 = (c0 as u32 - 48) as u64;
    let mut j: usize = i + 1;
    proof {
        let s1 = s@.subrange(i as int, i + 1);
        assert(s1.len() == 1);
        assert(s1.drop_last() =~= Seq::<char>::empty());
        assert(s1.last() == s@[i as int]);
        assert(dec_val(s1) == dec_val(s1.drop_last()) * 10 + ((s1.last() as u32) - 48) as nat);
        assert(dec_val(s1.drop_last()) == 0);
        assert(acc == dec_val(s1));
    }
    loop
        invariant_except_break
            i < j,
        invariant
            len == s@.len(),
            i < j <= len,
            i < len,
            forall|p: int| i <= p < j ==> is_digit(#[trigger] s@[p]),
            acc == dec_val(s@.subrange(i as int, j as int)),
            forall|n: u64| num_at(s@, i as int, n as nat) ==> j <= i + enc_nat(n as nat).len(),
        ensures
            j == len || !is_digit(s@[j as int]),
        decreases len - j,
    {
        if j >= len {
            break;
        }
        let cj = s[j];
        if !(cj as u32 >= 48 && cj as u32 <= 57) {
            break;
        }
        let d = (cj as u32 - 48) as u64;
        proof {
            assert forall|n: u64| num_at(s@, i as int, n as nat) implies j + 1 <= i + enc_nat(
                n as nat,
            ).len() && dec_val(s@.subrange(i as int, j + 1)) <= n by {
                lemma_enc_nat_ok(n as nat);
                let e = enc_nat(n as nat);
                if j == i + e.len() {
                    assert(!is_digit(s@[j as int]));
                }
                assert(s@.subrange(i as int, j + 1) =~= e.take(j + 1 - i));
                lemma_dec_val_prefix(e, j + 1 - i);
            }
            assert(s@.subrange(i as int, j + 1).drop_last() =~= s@.subrange(i as int, j as int));
        }
        if acc > (u64::MAX - d) / 10 {
            // too large for u64; a canonical u64 never reaches here
            proof {
                assert forall|n: u64| !num_at(s@, i as int, n as nat) by {
                    if num_at(s@, i as int, n as nat) {
                        assert(dec_val(s@.subrange(i as int, j + 1)) <= n);
                        assert(acc * 10 + d <= u64::MAX);
                        assert(acc <= (u64::MAX - d) / 10);
                    }
                }
            }
            return None;
        }
        acc = acc * 10 + d;
        j = j + 1;
    }
    proof {
        assert forall|n: u64| num_at(s@, i as int, n as nat) implies acc == n && j == i + enc_nat(
            n as nat,
        ).len() by {
            lemma_enc_nat_ok(n as nat);
            let e = enc_nat(n as nat);
            // the scan cannot stop inside the digits of e
            if j < i + e.len() {
                assert(s@[j as int] == e[j - i]);
                assert(is_digit(e[j - i]));
            }
            assert(j == i + e.len());
            assert(s@.subrange(i as int, j as int) =~= e);
        }
    }
    Some((acc, j))
}

/// Append a literal's characters.
pub(crate) fn push_lit(out: &mut Vec<char>, lit: &str)
    ensures
        final(out)@ == old(out)@ + lit@,
{
    let n = lit.unicode_len();
    let mut i: usize = 0;
    while i < n
        invariant
            n == lit@.len(),
            i <= n,
            out@ == old(out)@ + lit@.take(i as int),
        decreases n - i,
    {
        out.push(lit.get_char(i));
        proof {
            assert(out@ =~= old(out)@ + lit@.take(i + 1));
        }
        i = i + 1;
    }
    proof {
        assert(old(out)@ + lit@.take(n as int) =~= old(out)@ + lit@);
    }
}

/// Append the canonical decimal form of `n`.
pub(crate) fn push_u64(out: &mut Vec<char>, n: u64)
    ensures
        final(out)@ == old(out)@ + enc_nat(n as nat),
    decreases n,
{
    if n < 10 {
        out.push(((48 + n as u8)) as char);
        proof {
            assert(out@ =~= old(out)@ + enc_nat(n as nat));
        }
    } else {
        push_u64(out, n / 10);
        out.push(((48 + (n % 10) as u8)) as char);
        proof {
            assert(out@ =~= old(out)@ + enc_nat(n as nat));
        }
    }
}

/// Append the canonical decimal form of `v`.
fn push_i64(out: &mut Vec<char>, v: i64)
    ensures
        final(out)@ == old(out)@ + enc_int(v as int),
{
    if v < 0 {
        out.push('-');
        let m: u64 = (-(v as i128)) as u64;
        let ghost mid = out@;
        push_u64(out, m);
        proof {
            assert(out@ =~= old(out)@ + enc_int(v as int));
        }
    } else {
        push_u64(out, v as u64);
    }
}

/// An integer starts at position `i` of `s`, bounded on the right by the
/// end of the text or a non-digit.
pub open spec fn int_at(s: Seq<char>, i: int, v: int) -> bool {
    &&& 0 <= i
    &&& i + enc_int(v).len() <= s.len()
    &&& s.subrange(i, i + enc_int(v).len() as int) == enc_int(v)
    &&& (i + enc_int(v).len() == s.len() || !is_digit(s[i + enc_int(v).len() as int]))
}

/// A negative integer's text starts with the sign, the magnitude after it.
proof fn lemma_neg_int_at(s: Seq<char>, i: int, w: int)
    requires
        w < 0,
        int_at(s, i, w),
    ensures
        s[i] == '-',
        num_at(s, i + 1, (-w) as nat),
{
    let mag = (-w) as nat;
    let e = enc_int(w);
    assert(e == seq!['-'] + enc_nat(mag));
    assert(s.subrange(i, i + e.len() as int)[0] == e[0]);
    assert forall|q: int| 0 <= q < enc_nat(mag).len() implies s[i + 1 + q] == enc_nat(mag)[q] by {
        assert(s.subrange(i, i + e.len() as int)[1 + q] == e[1 + q]);
    }
    assert(s.subrange(i + 1, i + 1 + enc_nat(mag).len() as int) =~= enc_nat(mag));
}

/// A nonnegative integer's text is its magnitude, starting with a digit.
proof fn lemma_pos_int_at(s: Seq<char>, i: int, w: int)
    requires
        w >= 0,
        int_at(s, i, w),
    ensures
        num_at(s, i, w as nat),
        is_digit(s[i]),
{
    lemma_enc_nat_ok(w as nat);
    assert(s.subrange(i, i + enc_int(w).len() as int)[0] == enc_int(w)[0]);
}

/// Parse an integer at position `i`. Reads back exactly what `enc_int`
/// wrote for any `i64`.
pub fn parse_i64(s: &Vec<char>, i: usize) -> (r: Option<(i64, usize)>)
    requires
        i <= s@.len(),
    ensures
        r matches Some((v, j)) ==> i <= j <= s@.len(),
        forall|v: i64| #![trigger int_at(s@, i as int, v as int)]
            int_at(s@, i as int, v as int) ==> r == Some::<(i64, usize)>(
                (v, (i + enc_int(v as int).len()) as usize),
            ),
{
    if i < s.len() && s[i] == '-' {
        let r0 = parse_u64(s, i + 1);
        proof {
            assert forall|w: i64| int_at(s@, i as int, w as int) implies w < 0 && num_at(
                s@,
                i + 1,
                (-(w as int)) as nat,
            ) by {
                if w >= 0 {
                    lemma_pos_int_at(s@, i as int, w as int);
                } else {
                    lemma_neg_int_at(s@, i as int, w as int);
                }
            }
        }
        match r0 {
            Some((m, j)) => {
                if m <= 9223372036854775808u64 {
                    let v: i64 = (-(m as i128)) as i64;
                    Some((v, j))
                } else {
                    None
                }
            },
            None => None,
        }
    } else {
        let r0 = parse_u64(s, i);
        proof {
            assert forall|w: i64| int_at(s@, i as int, w as int) implies w >= 0 && num_at(
                s@,
                i as int,
                w as nat,
            ) by {
                if w < 0 {
                    lemma_neg_int_at(s@, i as int, w as int);
                    assert(i < s@.len() && s@[i as int] == '-');
                } else {
                    lemma_pos_int_at(s@, i as int, w as int);
                }
            }
        }
        match r0 {
            Some((m, j)) => {
                if m <= 9223372036854775807u64 {
                    Some((m as i64, j))
                } else {
                    None
                }
            },
            None => None,
        }
    }
}

/// The literal occurs at position `i` of `s`.
pub open spec fn lit_at(s: Seq<char>, i: int, lit: Seq<char>) -> bool {
    0 <= i && i + lit.len() <= s.len() && s.subrange(i, i + lit.len() as int) == lit
}

/// Check that the literal occurs at position `i`; yields the position
/// after it.
fn expect_lit(s: &Vec<char>, i: usize, lit: &str) -> (r: Option<usize>)
    requires
        i <= s@.len(),
    ensures
        r matches Some(j) ==> j == i + lit@.len() && i + lit@.len() <= s@.len() && lit_at(
            s@,
            i as int,
            lit@,
        ),
        lit_at(s@, i as int, lit@) ==> r is Some,
{
    let n = lit.unicode_len();
    if n > s.len() - i || i > s.len() {
        proof {
            assert(!lit_at(s@, i as int, lit@));
        }
        return None;
    }
    let mut p: usize = 0;
    while p < n
        invariant
            i <= s@.len(),
            s@.len() <= usize::MAX,
            n == lit@.len(),
            i + n <= s@.len(),
            p <= n,
            forall|q: int| 0 <= q < p ==> s@[i + q] == lit@[q],
        decreases n - p,
    {
        if s[i + p] != lit.get_char(p) {
            proof {
                if lit_at(s@, i as int, lit@) {
                    assert(s@.subrange(i as int, i + n as int)[p as int] == lit@[p as int]);
                }
            }
            return None;
        }
        p = p + 1;
    }
    proof {
        assert(s@.subrange(i as int, i + n as int) =~= lit@);
    }
    Some(i + n)
}

/// JSON escape of one character: quote and backslash get a backslash,
/// control characters become `\u00XX`, everything else stands verbatim.
pub open spec fn esc_char(c: char) -> Seq<char> {
    if c == '"' {
        seq!['\\', '"']
    } else if c == '\\' {
        seq!['\\', '\\']
    } else if (c as u32) < 32 {
        seq!['\\', 'u', '0', '0', hex_char((c as u32 / 16) as int), hex_char((c as u32 % 16) as int)]
    } else {
        seq![c]
    }
}

/// JSON escape of a whole string.
pub open spec fn escape(s: Seq<char>) -> Seq<char>
    decreases s.len(),
{
    if s.len() == 0 {
        Seq::empty()
    } else {
        escape(s.drop_last()) + esc_char(s.last())
    }
}

/// Escaping distributes over concatenation.
proof fn lemma_escape_concat(a: Seq<char>, b: Seq<char>)
    ensures
        escape(a + b) == escape(a) + escape(b),
    decreases b.len(),
{
    if b.len() == 0 {
        assert(a + b =~= a);
        assert(escape(a) + escape(b) =~= escape(a));
    } else {
        lemma_escape_concat(a, b.drop_last());
        assert((a + b).drop_last() =~= a + b.drop_last());
        assert((a + b).last() == b.last());
        assert(escape(a + b) == escape(a) + escape(b.drop_last()) + esc_char(b.last()));
        assert(escape(a) + escape(b.drop_last()) + esc_char(b.last()) =~= escape(a) + (escape(
            b.drop_last(),
        ) + esc_char(b.last())));
    }
}

/// A JSON string starts at position `i` of `s`: a quote, the escape of
/// `orig`, a closing quote.
pub open spec fn str_at(s: Seq<char>, i: int, orig: Seq<char>) -> bool {
    &&& 0 <= i
    &&& i + 2 + escape(orig).len() <= s.len()
    &&& s.subrange(i, i + 2 + escape(orig).len() as int) == seq!['"'] + escape(orig) + seq!['"']
}

/// Append the quoted, escaped form of `t`.
fn push_str_enc(out: &mut Vec<char>, t: &str)
    ensures
        final(out)@ == old(out)@ + seq!['"'] + escape(t@) + seq!['"'],
{
    out.push('"');
    let n = t.unicode_len();
    let mut i: usize = 0;
    proof {
        assert(escape(t@.take(0)) =~= Seq::<char>::empty());
        assert(out@ =~= old(out)@ + seq!['"'] + escape(t@.take(0)));
    }
    while i < n
        invariant
            n == t@.len(),
            i <= n,
            out@ == old(out)@ + seq!['"'] + escape(t@.take(i as int)),
        decreases n - i,
    {
        let c = t.get_char(i);
        let cu = c as u32;
        if c == '"' {
            out.push('\\');
            out.push('"');
        } else if c == '\\' {
            out.push('\\');
            out.push('\\');
        } else if cu < 32 {
            out.push('\\');
            out.push('u');
            out.push('0');
            out.push('0');
            let hi = (cu / 16) as u8;
            let lo = (cu % 16) as u8;
            let hc = if hi < 10 {
                (48 + hi) as char
            } else {
                (87 + hi) as char
            };
            let lc = if lo < 10 {
                (48 + lo) as char
            } else {
                (87 + lo) as char
            };
            out.push(hc);
            out.push(lc);
        } else {
            out.push(c);
        }
        proof {
            assert(t@.take(i + 1).drop_last() =~= t@.take(i as int));
            assert(t@.take(i + 1).last() == t@[i as int]);
            assert(escape(t@.take(i + 1)) == escape(t@.take(i as int)) + esc_char(t@[i as int]));
            assert(out@ =~= old(out)@ + seq!['"'] + escape(t@.take(i + 1)));
        }
        i = i + 1;
    }
    out.push('"');
    proof {
        assert(t@.take(n as int) =~= t@);
        assert(out@ =~= old(out)@ + seq!['"'] + escape(t@) + seq!['"']);
    }
}

/// The value of a canonical lowercase hex digit character, if it is one.
fn hex_val(c: char) -> (r: Option<u8>)
    ensures
        r matches Some(d) ==> d < 16 && c == hex_char(d as int),
        forall|d: int| 0 <= d < 16 && c == hex_char(d) ==> r == Some::<u8>(d as u8),
{
    let u = c as u32;
    if u >= 48 && u <= 57 {
        Some((u - 48) as u8)
    } else if u >= 97 && u <= 102 {
        Some((u - 87) as u8)
    } else {
        proof {
            assert forall|d: int| 0 <= d < 16 implies c != hex_char(d) by {
                assert(hex_char(d) as u32 == if d < 10 {
                    48 + d
                } else {
                    87 + d
                });
            }
        }
        None
    }
}

/// Parse a quoted string at position `i`, undoing the canonical escapes.
/// Reads back exactly what `push_str_enc` wrote, for any original text.
fn parse_string(s: &Vec<char>, i: usize) -> (r: Option<(String, usize)>)
    requires
        i <= s@.len(),
    ensures
        r matches Some((o, j)) ==> i < j <= s@.len(),
        forall|orig: Seq<char>| #![trigger str_at(s@, i as int, orig)]
            str_at(s@, i as int, orig) ==> (r matches Some((o, j)) && o@ == orig && j == i + 2
                + escape(orig).len()),
{
    let len = s.len();
    if i >= len || s[i] != '"' {
        proof {
            assert forall|orig: Seq<char>| !str_at(s@, i as int, orig) by {
                if str_at(s@, i as int, orig) {
                    assert(s@.subrange(i as int, i + 2 + escape(orig).len() as int)[0] == '"');
                }
            }
        }
        return None;
    }
    let mut out: Vec<char> = Vec::new();
    let mut j: usize = i + 1;
    proof {
        assert(escape(out@) =~= Seq::<char>::empty());
        assert(s@.subrange(i + 1, j as int) =~= escape(out@));
    }
    loop
        invariant_except_break
            true,
        invariant
            len == s@.len(),
            i < j <= len,
            s@[i as int] == '"',
            s@.subrange(i + 1, j as int) == escape(out@),
        ensures
            j < len && s@[j as int] == '"',
        decreases len - j,
    {
        proof {
            assert forall|orig: Seq<char>| str_at(s@, i as int, orig) implies parse_step_ok(
                s@,
                i as int,
                j as int,
                out@,
                orig,
            ) by {
                lemma_parse_step(s@, i as int, j as int, out@, orig);
            }
        }
        if j >= len {
            proof {
                assert forall|orig: Seq<char>| !str_at(s@, i as int, orig) by {
                    if str_at(s@, i as int, orig) {
                        lemma_parse_step(s@, i as int, j as int, out@, orig);
                        if out@.len() < orig.len() {
                            let m = out@.len() as int;
                            let e2 = esc_char(orig[m]);
                            assert(s@[j as int] == e2[0]);
                            if e2.len() >= 2 {
                                assert(s@[j + 1] == e2[1]);
                            }
                            if e2.len() == 6 {
                                assert(s@[j + 2] == e2[2]);
                                assert(s@[j + 3] == e2[3]);
                                assert(s@[j + 4] == e2[4]);
                                assert(s@[j + 5] == e2[5]);
                            }
                        }
                    }
                }
            }
            return None;
        }
        let c = s[j];
        if c == '"' {
            break;
        }
        let cu = c as u32;
        let ghost out0 = out@;
        if c == '\\' {
            if len - j < 2 {
                proof {
                    assert forall|orig: Seq<char>| !str_at(s@, i as int, orig) by {
                        if str_at(s@, i as int, orig) {
                            lemma_parse_step(s@, i as int, j as int, out@, orig);
                            if out@.len() < orig.len() {
                                let m = out@.len() as int;
                                let e2 = esc_char(orig[m]);
                                assert(s@[j as int] == e2[0]);
                                if e2.len() >= 2 {
                                    assert(s@[j + 1] == e2[1]);
                                }
                                if e2.len() == 6 {
                                    assert(s@[j + 2] == e2[2]);
                                    assert(s@[j + 3] == e2[3]);
                                    assert(s@[j + 4] == e2[4]);
                                    assert(s@[j + 5] == e2[5]);
                                }
                            }
                        }
                    }
                }
                return None;
            }
            let e = s[j + 1];
            if e == '"' {
                out.push('"');
                j = j + 2;
            } else if e == '\\' {
                out.push('\\');
                j = j + 2;
            } else if e == 'u' {
                if len - j < 6 {
                    proof {
                        assert forall|orig: Seq<char>| !str_at(s@, i as int, orig) by {
                            if str_at(s@, i as int, orig) {
                                lemma_parse_step(s@, i as int, j as int, out@, orig);
                                if out@.len() < orig.len() {
                                    let m = out@.len() as int;
                                    let e2 = esc_char(orig[m]);
                                    assert(s@[j as int] == e2[0]);
                                    if e2.len() >= 2 {
                                        assert(s@[j + 1] == e2[1]);
                                    }
                                    if e2.len() == 6 {
                                        assert(s@[j + 2] == e2[2]);
                                        assert(s@[j + 3] == e2[3]);
                                        assert(s@[j + 4] == e2[4]);
                                        assert(s@[j + 5] == e2[5]);
                                    }
                                }
                            }
                        }
                    }
                    return None;
                }
                if s[j + 2] != '0' || s[j + 3] != '0' {
                    proof {
                        assert forall|orig: Seq<char>| !str_at(s@, i as int, orig) by {
                            if str_at(s@, i as int, orig) {
                                lemma_parse_step(s@, i as int, j as int, out@, orig);
                                if out@.len() < orig.len() {
                                    let m = out@.len() as int;
                                    let e2 = esc_char(orig[m]);
                                    assert(s@[j as int] == e2[0]);
                                    if e2.len() >= 2 {
                                        assert(s@[j + 1] == e2[1]);
                                    }
                                    if e2.len() == 6 {
                                        assert(s@[j + 2] == e2[2]);
                                        assert(s@[j + 3] == e2[3]);
                                        assert(s@[j + 4] == e2[4]);
                                        assert(s@[j + 5] == e2[5]);
                                    }
                                }
                            }
                        }
                    }
                    return None;
                }
                let h1 = hex_val(s[j + 4]);
                let h2 = hex_val(s[j + 5]);
                match (h1, h2) {
                    (Some(a), Some(b)) => {
                        let code: u8 = a * 16 + b;
                        if code >= 32 {
                            proof {
                                assert forall|orig: Seq<char>| !str_at(s@, i as int, orig) by {
                                    if str_at(s@, i as int, orig) {
                                        lemma_parse_step(s@, i as int, j as int, out@, orig);
                                        if out@.len() < orig.len() {
                                            let m = out@.len() as int;
                                            let e2 = esc_char(orig[m]);
                                            assert(s@[j as int] == e2[0]);
                                            if e2.len() >= 2 {
                                                assert(s@[j + 1] == e2[1]);
                                            }
                                            if e2.len() == 6 {
                                                assert(s@[j + 2] == e2[2]);
                                                assert(s@[j + 3] == e2[3]);
                                                assert(s@[j + 4] == e2[4]);
                                                assert(s@[j + 5] == e2[5]);
                                            }
                                        }
                                    }
                                }
                            }
                            return None;
                        }
                        let c2 = code as char;
                        out.push(c2);
                        proof {
                            assert(esc_char(c2) =~= s@.subrange(j as int, j + 6));
                        }
                        j = j + 6;
                    },
                    _ => {
                        proof {
                            assert forall|orig: Seq<char>| !str_at(s@, i as int, orig) by {
                                if str_at(s@, i as int, orig) {
                                    lemma_parse_step(s@, i as int, j as int, out@, orig);
                                    if out@.len() < orig.len() {
                                        let m = out@.len() as int;
                                        let e2 = esc_char(orig[m]);
                                        assert(s@[j as int] == e2[0]);
                                        if e2.len() >= 2 {
                                            assert(s@[j + 1] == e2[1]);
                                        }
                                        if e2.len() == 6 {
                                            assert(s@[j + 2] == e2[2]);
                                            assert(s@[j + 3] == e2[3]);
                                            assert(s@[j + 4] == e2[4]);
                                            assert(s@[j + 5] == e2[5]);
                                        }
                                    }
                                }
                            }
                        }
                        return None;
                    },
                }
            } else {
                proof {
                    assert forall|orig: Seq<char>| !str_at(s@, i as int, orig) by {
                        if str_at(s@, i as int, orig) {
                            lemma_parse_step(s@, i as int, j as int, out@, orig);
                            if out@.len() < orig.len() {
                                let m = out@.len() as int;
                                let e2 = esc_char(orig[m]);
                                assert(s@[j as int] == e2[0]);
                                if e2.len() >= 2 {
                                    assert(s@[j + 1] == e2[1]);
                                }
                                if e2.len() == 6 {
                                    assert(s@[j + 2] == e2[2]);
                                    assert(s@[j + 3] == e2[3]);
                                    assert(s@[j + 4] == e2[4]);
                                    assert(s@[j + 5] == e2[5]);
                                }
                            }
                        }
                    }
                }
                return None;
            }
        } else if cu < 32 {
            proof {
                assert forall|orig: Seq<char>| !str_at(s@, i as int, orig) by {
                    if str_at(s@, i as int, orig) {
                        lemma_parse_step(s@, i as int, j as int, out@, orig);
                        if out@.len() < orig.len() {
                            let m = out@.len() as int;
                            let e2 = esc_char(orig[m]);
                            assert(s@[j as int] == e2[0]);
                            if e2.len() >= 2 {
                                assert(s@[j + 1] == e2[1]);
                            }
                            if e2.len() == 6 {
                                assert(s@[j + 2] == e2[2]);
                                assert(s@[j + 3] == e2[3]);
                                assert(s@[j + 4] == e2[4]);
                                assert(s@[j + 5] == e2[5]);
                            }
                        }
                    }
                }
            }
            return None;
        } else {
            out.push(c);
            j = j + 1;
        }
        proof {
            assert(out@.drop_last() =~= out0);
            assert(escape(out@) == escape(out0) + esc_char(out@.last()));
            assert(s@.subrange(i + 1, j as int) =~= escape(out@));
        }
    }
    proof {
        assert forall|orig: Seq<char>| str_at(s@, i as int, orig) implies (out@ == orig && j + 1
            == i + 2 + escape(orig).len()) by {
            lemma_parse_step(s@, i as int, j as int, out@, orig);
            if out@.len() < orig.len() {
                let m = out@.len() as int;
                assert(s@[j as int] == esc_char(orig[m])[0]);
                lemma_esc_head(orig[m]);
                assert(false);
            }
        }
    }
    Some((string_from_chars(&out), j + 1))
}

/// What the text must look like at the parser's cursor: either the parsed
/// prefix is the whole original and the closing quote is next, or the
/// escape code of the next original character sits at the cursor.
pub open spec fn parse_step_ok(s: Seq<char>, i: int, j: int, out: Seq<char>, orig: Seq<char>) -> bool {
    &&& j < s.len()
    &&& out.len() <= orig.len()
    &&& out == orig.take(out.len() as int)
    &&& out.len() == orig.len() ==> s[j] == '"' && j == i + 1 + escape(orig).len()
    &&& out.len() < orig.len() ==> j + esc_char(orig[out.len() as int]).len() < s.len()
        && forall|q: int|
            0 <= q < esc_char(orig[out.len() as int]).len() ==> s[j + q] == esc_char(
                orig[out.len() as int],
            )[q]
}

/// An escape sequence never starts with a bare quote.
proof fn lemma_esc_head(c: char)
    ensures
        esc_char(c).len() >= 1,
        esc_char(c)[0] != '"',
{
}

/// While the text after the opening quote equals the escape of the parsed
/// prefix, the prefix is determined, and the text at the cursor is the
/// closing quote or the next character's escape code.
proof fn lemma_parse_step(s: Seq<char>, i: int, j: int, out: Seq<char>, orig: Seq<char>)
    requires
        str_at(s, i, orig),
        i < j <= s.len(),
        s.subrange(i + 1, j) == escape(out),
    ensures
        parse_step_ok(s, i, j, out, orig),
    decreases out.len(),
{
    assert(j == i + 1 + escape(out).len()) by {
        assert(s.subrange(i + 1, j).len() == escape(out).len());
    }
    if out.len() == 0 {
        assert(out =~= orig.take(0));
    } else {
        let oprev = out.drop_last();
        let c = out.last();
        assert(escape(out) == escape(oprev) + esc_char(c));
        let jprev = j - esc_char(c).len();
        assert(s.subrange(i + 1, jprev as int) =~= escape(oprev)) by {
            assert forall|q: int| 0 <= q < escape(oprev).len() implies s.subrange(i + 1, jprev)[q]
                == escape(oprev)[q] by {
                assert(s.subrange(i + 1, j)[q] == escape(out)[q]);
            }
        }
        lemma_parse_step(s, i, jprev, oprev, orig);
        let m = oprev.len() as int;
        if m == orig.len() {
            // the closing quote would sit where this escape code begins
            assert(s[jprev] == '"');
            assert(s.subrange(i + 1, j)[jprev - (i + 1)] == escape(out)[jprev - (i + 1)]);
            assert(escape(out)[escape(oprev).len() as int] == esc_char(c)[0]);
            lemma_esc_head(c);
            assert(false);
        }
        // the code at jprev is the code of orig[m]; codes are a prefix code
        let ec = esc_char(orig[m]);
        assert(s[jprev] == ec[0]);
        assert forall|q: int| 0 <= q < esc_char(c).len() implies esc_char(c)[q] == (ec
            + Seq::<char>::empty())[q] || true by {
        }
        assert forall|q: int| 0 <= q < esc_char(c).len() && q < ec.len() implies esc_char(c)[q]
            == ec[q] by {
            assert(s.subrange(i + 1, j)[jprev - (i + 1) + q] == escape(out)[jprev - (i + 1) + q]);
            assert(escape(out)[escape(oprev).len() + q] == esc_char(c)[q]);
            assert(s[jprev + q] == ec[q]);
        }
        lemma_esc_codes_agree(c, orig[m]);
        assert(c == orig[m]);
        assert(out =~= orig.take(m + 1));
        // with c determined, the text beyond j continues per the original
        if out.len() < orig.len() {
            lemma_escape_decompose(orig, out.len() as int);
            let e2 = esc_char(orig[out.len() as int]);
            assert forall|q: int| 0 <= q < e2.len() implies s[j + q] == e2[q] by {
                assert(s.subrange(i, i + 2 + escape(orig).len() as int)[1 + escape(out).len() + q]
                    == (seq!['"'] + escape(orig) + seq!['"'])[1 + escape(out).len() + q]);
                assert((escape(out) + e2 + escape(orig.skip(out.len() as int + 1)))[escape(out).len() + q]
                    == e2[q]);
            }
            assert(j + e2.len() < s.len()) by {
                lemma_escape_len_mono(orig.skip(out.len() as int + 1));
            }
        } else {
            assert(out =~= orig);
            assert(s.subrange(i, i + 2 + escape(orig).len() as int)[1 + escape(orig).len() as int]
                == (seq!['"'] + escape(orig) + seq!['"'])[1 + escape(orig).len() as int]);
            assert(s[j] == '"');
        }
    }
    if out.len() == 0 && out.len() < orig.len() {
        lemma_escape_decompose(orig, 0);
        let e2 = esc_char(orig[0]);
        assert forall|q: int| 0 <= q < e2.len() implies s[j + q] == e2[q] by {
            assert(s.subrange(i, i + 2 + escape(orig).len() as int)[1 + q] == (seq!['"'] + escape(
                orig,
            ) + seq!['"'])[1 + q]);
            assert((escape(out) + e2 + escape(orig.skip(1)))[q] == e2[q]);
            assert(escape(orig)[q] == e2[q]);
        }
        assert(j + e2.len() < s.len()) by {
            lemma_escape_len_mono(orig.skip(1));
        }
    }
    if out.len() == 0 && out.len() == orig.len() {
        assert(s.subrange(i, i + 2 + escape(orig).len() as int)[1 + escape(orig).len() as int] == (
        seq!['"'] + escape(orig) + seq!['"'])[1 + escape(orig).len() as int]);
        assert(escape(orig) =~= Seq::<char>::empty());
        assert(s[j] == '"');
    }
}

/// Escaping never shortens text.
proof fn lemma_escape_len_mono(s: Seq<char>)
    ensures
        escape(s).len() >= s.len(),
    decreases s.len(),
{
    if s.len() > 0 {
        lemma_escape_len_mono(s.drop_last());
    }
}

/// The escape of a text splits around any position: prefix escape, that
/// character's code, suffix escape.
proof fn lemma_escape_decompose(orig: Seq<char>, m: int)
    requires
        0 <= m < orig.len(),
    ensures
        escape(orig) == escape(orig.take(m)) + esc_char(orig[m]) + escape(orig.skip(m + 1)),
{
    lemma_escape_concat(orig.take(m + 1), orig.skip(m + 1));
    assert(orig.take(m + 1) + orig.skip(m + 1) =~= orig);
    assert(orig.take(m + 1).drop_last() =~= orig.take(m));
    assert(orig.take(m + 1).last() == orig[m]);
    assert(escape(orig.take(m + 1)) == escape(orig.take(m)) + esc_char(orig[m]));
}

/// Escape codes form a prefix code: two codes that agree on the length of
/// the second belong to the same character.
proof fn lemma_esc_codes_agree(a: char, b: char)
    requires
        forall|q: int| 0 <= q < esc_char(a).len() && q < esc_char(b).len() ==> esc_char(a)[q]
            == esc_char(b)[q],
    ensures
        a == b,
{
    let ea = esc_char(a);
    let eb = esc_char(b);
    if a != b {
        assert(ea[0] == eb[0]);
        if ea.len() == 1 || eb.len() == 1 {
            assert(ea.len() == 1 && eb.len() == 1 ==> a == b);
            assert(ea.len() == 1 && eb.len() > 1 ==> ea[0] != '\\' && eb[0] == '\\');
            assert(ea.len() > 1 && eb.len() == 1 ==> ea[0] == '\\' && eb[0] != '\\');
        } else {
            assert(ea[1] == eb[1]);
            if ea.len() == 2 && eb.len() == 2 {
                assert(a == b);
            } else if ea.len() == 2 {
                assert(eb[1] == 'u');
                assert(ea[1] == '"' || ea[1] == '\\');
            } else if eb.len() == 2 {
                assert(ea[1] == 'u');
                assert(eb[1] == '"' || eb[1] == '\\');
            } else {
                assert(ea[4] == eb[4] && ea[5] == eb[5]);
                lemma_hex_char_injective((a as u32 / 16) as int, (b as u32 / 16) as int);
                lemma_hex_char_injective((a as u32 % 16) as int, (b as u32 % 16) as int);
                assert(a as u32 == b as u32);
                assert(a == b);
            }
        }
    }
}

/// Hex digit characters are distinct.
proof fn lemma_hex_char_injective(a: int, b: int)
    requires
        0 <= a < 16,
        0 <= b < 16,
        hex_char(a) == hex_char(b),
    ensures
        a == b,
{
    assert(hex_char(a) as u32 == if a < 10 {
        48 + a
    } else {
        87 + a
    });
    assert(hex_char(b) as u32 == if b < 10 {
        48 + b
    } else {
        87 + b
    });
}

/// Relies on `String`'s `FromIterator` over characters: collecting the
/// characters of `v` yields the string whose characters are exactly `v`.
#[verifier::external_body]
pub(crate) fn string_from_chars(v: &Vec<char>) -> (s: String)
    ensures
        s@ == v@,
{
    v.iter().collect()
}

/// The number of hex digits before position `p` of a hyphenated UUID.
pub open spec fn nibs_before(p: int) -> int {
    if p <= 8 {
        p
    } else if p <= 13 {
        p - 1
    } else if p <= 18 {
        p - 2
    } else if p <= 23 {
        p - 3
    } else {
        p - 4
    }
}

/// The `k`-th hex digit (most significant first) of a 128-bit id.
pub open spec fn uuid_nib(id: u128, k: int) -> u128 {
    (id >> (((31 - k) * 4) as u32)) & 0xf
}

/// The character at position `p` of the canonical hyphenated UUID form.
pub open spec fn uuid_char(id: u128, p: int) -> char {
    if p == 8 || p == 13 || p == 18 || p == 23 {
        '-'
    } else {
        hex_char(uuid_nib(id, nibs_before(p)) as int)
    }
}

/// Canonical lowercase hyphenated UUID form of a 128-bit id.
pub open spec fn enc_uuid(id: u128) -> Seq<char> {
    Seq::new(36, |p: int| uuid_char(id, p))
}

/// A nibble is below 16.
proof fn lemma_nib_small(id: u128, sh: u32)
    ensures
        (id >> sh) & 0xf < 16,
{
    assert((id >> sh) & 0xf < 16) by (bit_vector);
}

/// Append the canonical UUID form of `id`.
fn push_uuid(out: &mut Vec<char>, id: u128)
    ensures
        final(out)@ == old(out)@ + enc_uuid(id),
{
    let mut p: usize = 0;
    proof {
        assert(out@ =~= old(out)@ + Seq::new(0, |q: int| uuid_char(id, q)));
    }
    while p < 36
        invariant
            p <= 36,
            out@ == old(out)@ + Seq::new(p as nat, |q: int| uuid_char(id, q)),
        decreases 36 - p,
    {
        if p == 8 || p == 13 || p == 18 || p == 23 {
            out.push('-');
        } else {
            let k: usize = if p < 8 {
                p
            } else if p < 13 {
                p - 1
            } else if p < 18 {
                p - 2
            } else if p < 23 {
                p - 3
            } else {
                p - 4
            };
            let sh: u32 = ((31 - k) * 4) as u32;
            let nib: u128 = (id >> sh) & 0xf;
            proof {
                lemma_nib_small(id, sh);
            }
            let nib8 = nib as u8;
            let c = if nib8 < 10 {
                (48 + nib8) as char
            } else {
                (87 + nib8) as char
            };
            proof {
                assert(c == hex_char(nib as int));
                assert(c == uuid_char(id, p as int));
            }
            out.push(c);
        }
        proof {
            assert(out@ =~= old(out)@ + Seq::new((p + 1) as nat, |q: int| uuid_char(id, q)));
        }
        p = p + 1;
    }
    proof {
        assert(Seq::new(36, |q: int| uuid_char(id, q)) =~= enc_uuid(id));
    }
}

/// A canonical UUID sits at position `i` of `s`.
pub open spec fn uuid_at(s: Seq<char>, i: int, id: u128) -> bool {
    0 <= i && i + 36 <= s.len() && s.subrange(i, i + 36) == enc_uuid(id)
}

/// Reading the next nibble extends the prefix value by one hex digit.
proof fn lemma_uuid_acc_step(id: u128, t: u32)
    requires
        t <= 120,
    ensures
        (id >> (t + 4) as u32) * 16 + ((id >> t) & 0xf) == id >> t,
        (id >> (t + 4) as u32) * 16 + ((id >> t) & 0xf) <= u128::MAX,
{
    assert((id >> ((t + 4) as u32)) * 16 + ((id >> t) & 0xf) == id >> t) by (bit_vector)
        requires
            t <= 120,
    ;
}

/// The top nibble is the whole value shifted down.
proof fn lemma_uuid_top(id: u128)
    ensures
        (id >> 124u32) & 0xf == id >> 124u32,
        id >> 0u32 == id,
{
    assert((id >> 124u32) & 0xf == id >> 124u32) by (bit_vector);
    assert(id >> 0u32 == id) by (bit_vector);
}

/// Parse a canonical UUID at position `i`. Reads back exactly what
/// `push_uuid` wrote.
fn parse_uuid(s: &Vec<char>, i: usize) -> (r: Option<(u128, usize)>)
    requires
        i <= s@.len(),
    ensures
        r matches Some((_, j)) ==> j == i + 36 && i + 36 <= s@.len(),
        forall|id: u128| #![trigger uuid_at(s@, i as int, id)]
            uuid_at(s@, i as int, id) ==> (r matches Some((v, j)) && v == id && j == i + 36),
{
    let len = s.len();
    if len - i < 36 {
        proof {
            assert forall|id: u128| !uuid_at(s@, i as int, id) by {}
        }
        return None;
    }
    let mut acc: u128 = 0;
    let mut nb: usize = 0;
    let mut p: usize = 0;
    proof {
        assert(0u128 < (1u128 << 0u32)) by (bit_vector);
    }
    while p < 36
        invariant
            len == s@.len(),
            i + 36 <= len,
            p <= 36,
            nb == nibs_before(p as int),
            0 <= nb <= 32,
            nb == 32 ==> p == 36,
            forall|id: u128|
                uuid_at(s@, i as int, id) ==> acc == if nb == 0 {
                    0u128
                } else {
                    id >> ((4 * (32 - nb)) as u32)
                },
            nb < 32 ==> acc < (1u128 << ((4 * nb) as u32)),
        decreases 36 - p,
    {
        if p == 8 || p == 13 || p == 18 || p == 23 {
            if s[i + p] != '-' {
                proof {
                    assert forall|id: u128| !uuid_at(s@, i as int, id) by {
                        if uuid_at(s@, i as int, id) {
                            assert(s@.subrange(i as int, i + 36)[p as int] == enc_uuid(id)[p as int]);
                        }
                    }
                }
                return None;
            }
        } else {
            match hex_val(s[i + p]) {
                Some(d) => {
                    proof {
                        lemma_digit_room(acc, (4 * nb) as u32);
                    }
                    let acc2: u128 = acc * 16 + (d as u128);
                    proof {
                        assert forall|id: u128| uuid_at(s@, i as int, id) implies acc2 == (
                        if nb + 1 == 0 {
                            0u128
                        } else {
                            id >> ((4 * (32 - (nb + 1))) as u32)
                        }) by {
                            assert(s@.subrange(i as int, i + 36)[p as int] == enc_uuid(
                                id,
                            )[p as int]);
                            assert(s@[i + p] == hex_char(uuid_nib(id, nb as int) as int));
                            let sh: u32 = ((31 - nb) * 4) as u32;
                            lemma_nib_small(id, sh);
                            assert(d == uuid_nib(id, nb as int));
                            if nb == 0 {
                                lemma_uuid_top(id);
                                assert(acc2 == (id >> 124u32));
                            } else {
                                lemma_uuid_acc_step(id, sh);
                                assert(acc == id >> ((sh + 4) as u32));
                                assert(acc2 == id >> sh);
                            }
                        }
                        if nb + 1 < 32 {
                            assert(acc2 < (1u128 << ((4 * (nb + 1)) as u32)));
                        }
                    }
                    acc = acc2;
                    nb = nb + 1;
                },
                None => {
                    proof {
                        assert forall|id: u128| !uuid_at(s@, i as int, id) by {
                            if uuid_at(s@, i as int, id) {
                                assert(s@.subrange(i as int, i + 36)[p as int] == enc_uuid(
                                    id,
                                )[p as int]);
                                let sh: u32 = ((31 - nibs_before(p as int)) * 4) as u32;
                                lemma_nib_small(id, sh);
                            }
                        }
                    }
                    return None;
                },
            }
        }
        p = p + 1;
    }
    proof {
        assert forall|id: u128| uuid_at(s@, i as int, id) implies acc == id by {
            lemma_uuid_top(id);
            assert(acc == id >> 0u32);
        }
    }
    Some((acc, i + 36))
}

/// Below 32 nibbles, the running value leaves room for one more digit.
proof fn lemma_digit_room(acc: u128, x: u32)
    requires
        x <= 124,
        acc < (1u128 << x),
    ensures
        acc * 16 + 15 <= u128::MAX,
        x <= 120 ==> acc * 16 + 15 < (1u128 << ((x + 4) as u32)),
{
    assert(acc < (1u128 << x) && x <= 124 ==> acc * 16 + 15 <= 0xffff_ffff_ffff_ffff_ffff_ffff_ffff_ffffu128) by (bit_vector);
    assert(acc < (1u128 << x) && x <= 120 ==> acc * 16 + 15 < (1u128 << ((x + 4) as u32))) by (bit_vector);
}

/// The JSON text `null`.
pub open spec fn null_txt() -> Seq<char> {
    seq!['n', 'u', 'l', 'l']
}

/// A quoted, escaped JSON string.
pub open spec fn enc_str(t: Seq<char>) -> Seq<char> {
    seq!['"'] + escape(t) + seq!['"']
}

/// An optional string: `null` or its quoted form.
pub open spec fn enc_opt_str(t: Option<Seq<char>>) -> Seq<char> {
    match t {
        None => null_txt(),
        Some(x) => enc_str(x),
    }
}

/// An optional integer: `null` or its decimal form.
pub open spec fn enc_opt_i64(t: Option<i64>) -> Seq<char> {
    match t {
        None => null_txt(),
        Some(x) => enc_int(x as int),
    }
}

/// Comma-separated integer list items.
pub open spec fn enc_i32_items(v: Seq<i32>) -> Seq<char>
    decreases v.len(),
{
    if v.len() == 0 {
        Seq::empty()
    } else if v.len() == 1 {
        enc_int(v[0] as int)
    } else {
        enc_int(v[0] as int) + seq![','] + enc_i32_items(v.drop_first())
    }
}

/// A JSON array of integers.
pub open spec fn enc_emb(v: Seq<i32>) -> Seq<char> {
    seq!['['] + enc_i32_items(v) + seq![']']
}

/// Comma-separated string list items.
pub open spec fn enc_str_items(v: Seq<Seq<char>>) -> Seq<char>
    decreases v.len(),
{
    if v.len() == 0 {
        Seq::empty()
    } else if v.len() == 1 {
        enc_str(v[0])
    } else {
        enc_str(v[0]) + seq![','] + enc_str_items(v.drop_first())
    }
}

/// An optional JSON array of strings.
pub open spec fn enc_opt_str_list(t: Option<Seq<Seq<char>>>) -> Seq<char> {
    match t {
        None => null_txt(),
        Some(v) => seq!['['] + enc_str_items(v) + seq![']'],
    }
}

/// One trajectory step as a JSON object.
pub open spec fn enc_step(st: crate::episode::EpisodeStepView) -> Seq<char> {
    "{\"index\":"@ + enc_nat(st.index as nat) + ",\"action\":"@ + enc_str(st.action)
        + ",\"observation\":"@ + enc_str(st.observation) + ",\"step_reward\":"@ + enc_int(
        st.step_reward as int,
    ) + "}"@
}

/// Comma-separated step list items.
pub open spec fn enc_step_items(v: Seq<crate::episode::EpisodeStepView>) -> Seq<char>
    decreases v.len(),
{
    if v.len() == 0 {
        Seq::empty()
    } else if v.len() == 1 {
        enc_step(v[0])
    } else {
        enc_step(v[0]) + seq![','] + enc_step_items(v.drop_first())
    }
}

/// An optional JSON array of steps.
pub open spec fn enc_opt_steps(t: Option<Seq<crate::episode::EpisodeStepView>>) -> Seq<char> {
    match t {
        None => null_txt(),
        Some(v) => seq!['['] + enc_step_items(v) + seq![']'],
    }
}

/// The canonical JSON line of an episode: the fixed field order the
/// stores write and read back.
pub open spec fn enc_episode(e: crate::episode::EpisodeView) -> Seq<char> {
    "{\"id\":\""@ + enc_uuid(e.id) + "\",\"task_id\":"@ + enc_str(e.task_id)
        + ",\"state_embedding\":"@ + enc_emb(e.state_embedding) + ",\"reward\":"@ + enc_int(
        e.reward as int,
    ) + ",\"metadata\":"@ + enc_opt_str(e.metadata) + ",\"steps\":"@ + enc_opt_steps(e.steps)
        + ",\"timestamp\":"@ + enc_opt_i64(e.timestamp) + ",\"tags\":"@ + enc_opt_str_list(e.tags)
        + ",\"source\":"@ + enc_opt_str(e.source) + ",\"user_id\":"@ + enc_opt_str(e.user_id)
        + "}"@
}

/// Append `null`.
fn push_null(out: &mut Vec<char>)
    ensures
        final(out)@ == old(out)@ + null_txt(),
{
    out.push('n');
    out.push('u');
    out.push('l');
    out.push('l');
    proof {
        assert(out@ =~= old(out)@ + null_txt());
    }
}

/// Append an optional string field.
fn push_opt_str(out: &mut Vec<char>, t: &Option<String>)
    ensures
        final(out)@ == old(out)@ + enc_opt_str(t.deep_view()),
{
    match t {
        None => push_null(out),
        Some(x) => push_str_enc(out, x.as_str()),
    }
}

/// Append an optional integer field.
fn push_opt_i64(out: &mut Vec<char>, t: &Option<i64>)
    ensures
        final(out)@ == old(out)@ + enc_opt_i64(*t),
{
    match t {
        None => push_null(out),
        Some(x) => push_i64(out, *x),
    }
}

/// Append integer list items from `idx` on.
fn push_i32_items(out: &mut Vec<char>, v: &Vec<i32>, idx: usize)
    requires
        idx <= v@.len(),
    ensures
        final(out)@ == old(out)@ + enc_i32_items(v@.skip(idx as int)),
    decreases v@.len() - idx,
{
    if idx >= v.len() {
        proof {
            assert(enc_i32_items(v@.skip(idx as int)) =~= Seq::<char>::empty());
            assert(out@ =~= old(out)@ + enc_i32_items(v@.skip(idx as int)));
        }
        return ;
    }
    push_i64(out, v[idx] as i64);
    proof {
        assert(v@.skip(idx as int)[0] == v@[idx as int]);
    }
    if idx + 1 < v.len() {
        out.push(',');
        push_i32_items(out, v, idx + 1);
        proof {
            assert(v@.skip(idx as int).drop_first() =~= v@.skip(idx as int + 1));
            assert(out@ =~= old(out)@ + enc_i32_items(v@.skip(idx as int)));
        }
    } else {
        proof {
            assert(v@.skip(idx as int).len() == 1);
            assert(out@ =~= old(out)@ + enc_i32_items(v@.skip(idx as int)));
        }
    }
}

/// Append a JSON array of integers.
fn push_emb(out: &mut Vec<char>, v: &Vec<i32>)
    ensures
        final(out)@ == old(out)@ + enc_emb(v@),
{
    out.push('[');
    push_i32_items(out, v, 0);
    out.push(']');
    proof {
        assert(v@.skip(0) =~= v@);
        assert(out@ =~= old(out)@ + enc_emb(v@));
    }
}

/// Append string list items from `idx` on.
fn push_str_items(out: &mut Vec<char>, v: &Vec<String>, idx: usize)
    requires
        idx <= v@.len(),
    ensures
        final(out)@ == old(out)@ + enc_str_items(v.deep_view().skip(idx as int)),
    decreases v@.len() - idx,
{
    if idx >= v.len() {
        proof {
            assert(enc_str_items(v.deep_view().skip(idx as int)) =~= Seq::<char>::empty());
            assert(out@ =~= old(out)@ + enc_str_items(v.deep_view().skip(idx as int)));
        }
        return ;
    }
    push_str_enc(out, v[idx].as_str());
    proof {
        assert(v.deep_view().skip(idx as int)[0] == v.deep_view()[idx as int]);
        assert(v.deep_view()[idx as int] == v@[idx as int]@);
    }
    if idx + 1 < v.len() {
        out.push(',');
        push_str_items(out, v, idx + 1);
        proof {
            assert(v.deep_view().skip(idx as int).drop_first() =~= v.deep_view().skip(
                idx as int + 1,
            ));
            assert(out@ =~= old(out)@ + enc_str_items(v.deep_view().skip(idx as int)));
        }
    } else {
        proof {
            assert(v.deep_view().skip(idx as int).len() == 1);
            assert(out@ =~= old(out)@ + enc_str_items(v.deep_view().skip(idx as int)));
        }
    }
}

/// Append an optional JSON array of strings.
fn push_opt_str_list(out: &mut Vec<char>, t: &Option<Vec<String>>)
    ensures
        final(out)@ == old(out)@ + enc_opt_str_list(t.deep_view()),
{
    match t {
        None => push_null(out),
        Some(v) => {
            out.push('[');
            push_str_items(out, v, 0);
            out.push(']');
            proof {
                assert(v.deep_view().skip(0) =~= v.deep_view());
                assert(out@ =~= old(out)@ + enc_opt_str_list(t.deep_view()));
            }
        },
    }
}

/// Append one trajectory step.
fn push_step(out: &mut Vec<char>, st: &crate::episode::EpisodeStep)
    ensures
        final(out)@ == old(out)@ + enc_step(st@),
{
    push_lit(out, "{\"index\":");
    push_u64(out, st.index as u64);
    push_lit(out, ",\"action\":");
    push_str_enc(out, st.action.as_str());
    push_lit(out, ",\"observation\":");
    push_str_enc(out, st.observation.as_str());
    push_lit(out, ",\"step_reward\":");
    push_i64(out, st.step_reward);
    push_lit(out, "}");
    proof {
        assert(out@ =~= old(out)@ + enc_step(st@));
    }
}

/// Append step list items from `idx` on.
fn push_step_items(out: &mut Vec<char>, v: &Vec<crate::episode::EpisodeStep>, idx: usize)
    requires
        idx <= v@.len(),
    ensures
        final(out)@ == old(out)@ + enc_step_items(v.deep_view().skip(idx as int)),
    decreases v@.len() - idx,
{
    if idx >= v.len() {
        proof {
            assert(enc_step_items(v.deep_view().skip(idx as int)) =~= Seq::<char>::empty());
            assert(out@ =~= old(out)@ + enc_step_items(v.deep_view().skip(idx as int)));
        }
        return ;
    }
    push_step(out, &v[idx]);
    proof {
        assert(v.deep_view().skip(idx as int)[0] == v.deep_view()[idx as int]);
        assert(v.deep_view()[idx as int] == v@[idx as int]@);
    }
    if idx + 1 < v.len() {
        out.push(',');
        push_step_items(out, v, idx + 1);
        proof {
            assert(v.deep_view().skip(idx as int).drop_first() =~= v.deep_view().skip(
                idx as int + 1,
            ));
            assert(out@ =~= old(out)@ + enc_step_items(v.deep_view().skip(idx as int)));
        }
    } else {
        proof {
            assert(v.deep_view().skip(idx as int).len() == 1);
            assert(out@ =~= old(out)@ + enc_step_items(v.deep_view().skip(idx as int)));
        }
    }
}

/// Append an optional JSON array of steps.
fn push_opt_steps(out: &mut Vec<char>, t: &Option<Vec<crate::episode::EpisodeStep>>)
    ensures
        final(out)@ == old(out)@ + enc_opt_steps(t.deep_view()),
{
    match t {
        None => push_null(out),
        Some(v) => {
            out.push('[');
            push_step_items(out, v, 0);
            out.push(']');
            proof {
                assert(v.deep_view().skip(0) =~= v.deep_view());
                assert(out@ =~= old(out)@ + enc_opt_steps(t.deep_view()));
            }
        },
    }
}

/// Encode an episode as its canonical JSON line.
pub fn encode_episode(ep: &crate::episode::Episode) -> (out: Vec<char>)
    ensures
        out@ == enc_episode(ep@),
{
    let mut out: Vec<char> = Vec::new();
    push_lit(&mut out, "{\"id\":\"");
    push_uuid(&mut out, ep.id);
    push_lit(&mut out, "\",\"task_id\":");
    push_str_enc(&mut out, ep.task_id.as_str());
    push_lit(&mut out, ",\"state_embedding\":");
    push_emb(&mut out, &ep.state_embedding);
    push_lit(&mut out, ",\"reward\":");
    push_i64(&mut out, ep.reward);
    push_lit(&mut out, ",\"metadata\":");
    push_opt_str(&mut out, &ep.metadata);
    push_lit(&mut out, ",\"steps\":");
    push_opt_steps(&mut out, &ep.steps);
    push_lit(&mut out, ",\"timestamp\":");
    push_opt_i64(&mut out, &ep.timestamp);
    push_lit(&mut out, ",\"tags\":");
    push_opt_str_list(&mut out, &ep.tags);
    push_lit(&mut out, ",\"source\":");
    push_opt_str(&mut out, &ep.source);
    push_lit(&mut out, ",\"user_id\":");
    push_opt_str(&mut out, &ep.user_id);
    push_lit(&mut out, "}");
    proof {
        assert(out@ =~= enc_episode(ep@));
    }
    out
}

/// A concatenated literal splits into its parts in place.
proof fn lemma_lit_split(s: Seq<char>, i: int, a: Seq<char>, b: Seq<char>)
    requires
        lit_at(s, i, a + b),
    ensures
        lit_at(s, i, a),
        lit_at(s, i + a.len(), b),
{
    assert(s.subrange(i, i + a.len() as int) =~= a) by {
        assert forall|q: int| 0 <= q < a.len() implies s.subrange(i, i + a.len() as int)[q]
            == a[q] by {
            assert(s.subrange(i, i + (a + b).len() as int)[q] == (a + b)[q]);
        }
    }
    assert(s.subrange(i + a.len(), i + a.len() + b.len() as int) =~= b) by {
        assert forall|q: int| 0 <= q < b.len() implies s.subrange(
            i + a.len(),
            i + a.len() + b.len() as int,
        )[q] == b[q] by {
            assert(s.subrange(i, i + (a + b).len() as int)[a.len() + q] == (a + b)[a.len() + q]);
        }
    }
}

/// The first character of an integer's text: a sign or a digit.
proof fn lemma_enc_int_head(v: int)
    ensures
        enc_int(v).len() >= 1,
        enc_int(v)[0] == '-' || is_digit(enc_int(v)[0]),
{
    if v < 0 {
        lemma_enc_nat_ok((-v) as nat);
    } else {
        lemma_enc_nat_ok(v as nat);
        assert(enc_int(v)[0] == enc_nat(v as nat)[0]);
    }
}

/// An optional string piece sits at position `i`, as `null` or a quoted
/// string.
pub open spec fn opt_str_at(s: Seq<char>, i: int, t: Option<Seq<char>>) -> bool {
    lit_at(s, i, enc_opt_str(t))
}

/// Parse an optional string at position `i`.
fn parse_opt_str(s: &Vec<char>, i: usize) -> (r: Option<(Option<String>, usize)>)
    requires
        i <= s@.len(),
    ensures
        r matches Some((_, j)) ==> i <= j <= s@.len(),
        forall|t: Option<Seq<char>>| #![trigger opt_str_at(s@, i as int, t)]
            opt_str_at(s@, i as int, t) ==> (r matches Some((o, j)) && o.deep_view() == t && j
                == i + enc_opt_str(t).len()),
{
    proof {
        reveal_strlit("null");
    }
    match expect_lit(s, i, "null") {
        Some(j) => {
            proof {
                reveal_strlit("null");
                assert forall|t: Option<Seq<char>>| opt_str_at(s@, i as int, t) implies t is None
                    && j == i + enc_opt_str(t).len() by {
                    reveal_strlit("null");
                    if t is Some {
                        let x = t->Some_0;
                        assert(s@.subrange(i as int, i + enc_str(x).len() as int)[0] == enc_str(
                            x,
                        )[0]);
                        assert(s@.subrange(i as int, i + "null"@.len() as int)[0] == "null"@[0]);
                    }
                    assert(enc_opt_str(t) =~= "null"@);
                }
            }
            Some((None, j))
        },
        None => {
            match parse_string(s, i) {
                Some((o, j)) => {
                    proof {
                        reveal_strlit("null");
                        assert forall|t: Option<Seq<char>>| opt_str_at(s@, i as int, t) implies (
                        t matches Some(x) && o@ == x && j == i + enc_opt_str(t).len()) by {
                            reveal_strlit("null");
                            if t is None {
                                assert(lit_at(s@, i as int, "null"@)) by {
                                    assert(enc_opt_str(t) =~= "null"@);
                                }
                            }
                            let x = t->Some_0;
                            assert(str_at(s@, i as int, x)) by {
                                assert(s@.subrange(
                                    i as int,
                                    i + enc_str(x).len() as int,
                                ) == enc_str(x));
                            }
                        }
                    }
                    Some((Some(o), j))
                },
                None => {
                    proof {
                        reveal_strlit("null");
                        assert forall|t: Option<Seq<char>>| !opt_str_at(s@, i as int, t) by {
                            reveal_strlit("null");
                            if opt_str_at(s@, i as int, t) {
                                if t is None {
                                    assert(lit_at(s@, i as int, "null"@)) by {
                                        assert(enc_opt_str(t) =~= "null"@);
                                    }
                                } else {
                                    let x = t->Some_0;
                                    assert(str_at(s@, i as int, x)) by {
                                        assert(s@.subrange(
                                            i as int,
                                            i + enc_str(x).len() as int,
                                        ) == enc_str(x));
                                    }
                                }
                            }
                        }
                    }
                    None
                },
            }
        },
    }
}

/// An optional integer piece sits at position `i`, bounded on the right
/// by the end of the text or a non-digit.
pub open spec fn opt_i64_at(s: Seq<char>, i: int, t: Option<i64>) -> bool {
    lit_at(s, i, enc_opt_i64(t)) && (i + enc_opt_i64(t).len() == s.len() || !is_digit(
        s[i + enc_opt_i64(t).len() as int],
    ))
}

/// Parse an optional integer at position `i`.
fn parse_opt_i64(s: &Vec<char>, i: usize) -> (r: Option<(Option<i64>, usize)>)
    requires
        i <= s@.len(),
    ensures
        r matches Some((_, j)) ==> i <= j <= s@.len(),
        forall|t: Option<i64>| #![trigger opt_i64_at(s@, i as int, t)]
            opt_i64_at(s@, i as int, t) ==> (r matches Some((o, j)) && o == t && j == i
                + enc_opt_i64(t).len()),
{
    proof {
        reveal_strlit("null");
    }
    match expect_lit(s, i, "null") {
        Some(j) => {
            proof {
                reveal_strlit("null");
                assert forall|t: Option<i64>| opt_i64_at(s@, i as int, t) implies t is None && j
                    == i + enc_opt_i64(t).len() by {
                    reveal_strlit("null");
                    if t is Some {
                        let x = t->Some_0;
                        lemma_enc_int_head(x as int);
                        assert(s@.subrange(i as int, i + enc_int(x as int).len() as int)[0]
                            == enc_int(x as int)[0]);
                        assert(s@.subrange(i as int, i + "null"@.len() as int)[0] == "null"@[0]);
                    }
                    assert(enc_opt_i64(t) =~= "null"@);
                }
            }
            Some((None, j))
        },
        None => {
            match parse_i64(s, i) {
                Some((x, j)) => {
                    proof {
                        reveal_strlit("null");
                        assert forall|t: Option<i64>| opt_i64_at(s@, i as int, t) implies (
                        t matches Some(w) && x == w && j == i + enc_opt_i64(t).len()) by {
                            reveal_strlit("null");
                            if t is None {
                                assert(lit_at(s@, i as int, "null"@)) by {
                                    assert(enc_opt_i64(t) =~= "null"@);
                                }
                            }
                            assert(t is Some);
                            let w = t->Some_0;
                            assert(int_at(s@, i as int, w as int));
                            assert(s.len() == s@.len());
                            assert(i + enc_int(w as int).len() <= usize::MAX);
                            assert(x == w);
                            assert(j == i + enc_opt_i64(t).len());
                        }
                    }
                    Some((Some(x), j))
                },
                None => {
                    proof {
                        reveal_strlit("null");
                        assert forall|t: Option<i64>| !opt_i64_at(s@, i as int, t) by {
                            reveal_strlit("null");
                            if opt_i64_at(s@, i as int, t) {
                                if t is None {
                                    assert(lit_at(s@, i as int, "null"@)) by {
                                        assert(enc_opt_i64(t) =~= "null"@);
                                    }
                                } else {
                                    let w = t->Some_0;
                                    assert(int_at(s@, i as int, w as int));
                                }
                            }
                        }
                    }
                    None
                },
            }
        },
    }
}

/// Integer list items sit at position `j`, closed by a bracket.
pub open spec fn i32_items_at(s: Seq<char>, j: int, v: Seq<i32>) -> bool {
    lit_at(s, j, enc_i32_items(v)) && j + enc_i32_items(v).len() < s.len() && s[j + enc_i32_items(
        v,
    ).len() as int] == ']'
}

/// Parse integer list items at position `j`, stopping before the closing
/// bracket.
fn parse_i32_items(s: &Vec<char>, j: usize, out: &mut Vec<i32>) -> (r: Option<usize>)
    requires
        j <= s@.len(),
    ensures
        r matches Some(j2) ==> j <= j2 <= s@.len(),
        forall|v: Seq<i32>| #![trigger i32_items_at(s@, j as int, v)]
            i32_items_at(s@, j as int, v) ==> (r matches Some(j2) && final(out)@ == old(out)@ + v
                && j2 == j + enc_i32_items(v).len()),
    decreases s@.len() - j,
{
    if j < s.len() && s[j] == ']' {
        proof {
            assert forall|v: Seq<i32>| i32_items_at(s@, j as int, v) implies v.len() == 0 by {
                if v.len() > 0 {
                    lemma_enc_int_head(v[0] as int);
                    assert(s@.subrange(j as int, j + enc_i32_items(v).len() as int)[0]
                        == enc_i32_items(v)[0]);
                    assert(enc_i32_items(v)[0] == enc_int(v[0] as int)[0]);
                }
            }
            assert(out@ =~= old(out)@ + Seq::<i32>::empty());
        }
        return Some(j);
    }
    let ghost pre = out@;
    proof {
        assert forall|v: Seq<i32>| i32_items_at(s@, j as int, v) implies v.len() > 0 && int_at(
            s@,
            j as int,
            v[0] as i64 as int,
        ) && int_at(s@, j as int, v[0] as int) by {
            if v.len() == 0 {
                assert(s@[j as int] == ']');
            }
            let e0 = enc_int(v[0] as int);
            if v.len() == 1 {
                assert(s@.subrange(j as int, j + e0.len() as int) =~= e0) by {
                    assert forall|q: int| 0 <= q < e0.len() implies s@[j + q] == e0[q] by {
                        assert(s@.subrange(j as int, j + enc_i32_items(v).len() as int)[q]
                            == enc_i32_items(v)[q]);
                    }
                }
                assert(s@[j + e0.len()] == ']');
            } else {
                assert(enc_i32_items(v) == e0 + seq![','] + enc_i32_items(v.drop_first()));
                assert(s@.subrange(j as int, j + e0.len() as int) =~= e0) by {
                    assert forall|q: int| 0 <= q < e0.len() implies s@[j + q] == e0[q] by {
                        assert(s@.subrange(j as int, j + enc_i32_items(v).len() as int)[q]
                            == enc_i32_items(v)[q]);
                    }
                }
                assert(s@.subrange(j as int, j + enc_i32_items(v).len() as int)[e0.len() as int]
                    == enc_i32_items(v)[e0.len() as int]);
                assert(s@[j + e0.len()] == ',');
            }
        }
    }
    proof {
        assert(s.len() == s@.len());
    }
    let parsed = parse_i64(s, j);
    match parsed {
        None => {
            proof {
                assert forall|v: Seq<i32>| !i32_items_at(s@, j as int, v) by {
                    if i32_items_at(s@, j as int, v) {
                        assert(int_at(s@, j as int, v[0] as i64 as int));
                    }
                }
            }
            None
        },
        Some((x, j2)) => {
            if x < -2147483648i64 || x > 2147483647i64 {
                return None;
            }
            out.push(x as i32);
            if j2 < s.len() {
                let c = s[j2];
                if c == ',' {
                    proof {
                        assert forall|v: Seq<i32>| i32_items_at(s@, j as int, v) implies v.len()
                            > 1 && i32_items_at(s@, j2 + 1, v.drop_first()) by {
                            let e0 = enc_int(v[0] as int);
                            if v.len() == 1 {
                                assert(s@[j + e0.len()] == ']');
                            }
                            assert(enc_i32_items(v) == e0 + seq![','] + enc_i32_items(
                                v.drop_first(),
                            ));
                            assert(s@.subrange(
                                j2 + 1,
                                j2 + 1 + enc_i32_items(v.drop_first()).len() as int,
                            ) =~= enc_i32_items(v.drop_first())) by {
                                assert forall|q: int|
                                    0 <= q < enc_i32_items(v.drop_first()).len() implies s@[j2 + 1
                                    + q] == enc_i32_items(v.drop_first())[q] by {
                                    assert(s@.subrange(
                                        j as int,
                                        j + enc_i32_items(v).len() as int,
                                    )[e0.len() + 1 + q] == enc_i32_items(v)[e0.len() + 1 + q]);
                                }
                            }
                        }
                    }
                    let r2 = parse_i32_items(s, j2 + 1, out);
                    proof {
                        assert forall|v: Seq<i32>| i32_items_at(s@, j as int, v) implies (
                        r2 matches Some(j3) && out@ == pre + v && j3 == j + enc_i32_items(
                            v,
                        ).len()) by {
                            assert(pre.push(v[0]) + v.drop_first() =~= pre + v);
                        }
                    }
                    r2
                } else {
                    proof {
                        assert forall|v: Seq<i32>| i32_items_at(s@, j as int, v) implies (out@
                            == pre + v && j2 == j + enc_i32_items(v).len()) by {
                            if v.len() > 1 {
                                let e0 = enc_int(v[0] as int);
                                assert(enc_i32_items(v) == e0 + seq![','] + enc_i32_items(
                                    v.drop_first(),
                                ));
                                assert(s@.subrange(
                                    j as int,
                                    j + enc_i32_items(v).len() as int,
                                )[e0.len() as int] == enc_i32_items(v)[e0.len() as int]);
                                assert(s@[j2 as int] == ',');
                            }
                            assert(pre.push(v[0]) =~= pre + v);
                        }
                    }
                    Some(j2)
                }
            } else {
                proof {
                    assert forall|v: Seq<i32>| !i32_items_at(s@, j as int, v) by {
                        if i32_items_at(s@, j as int, v) {
                            assert(j + enc_i32_items(v).len() < s@.len());
                            if v.len() > 1 {
                                let e0 = enc_int(v[0] as int);
                                assert(enc_i32_items(v) == e0 + seq![','] + enc_i32_items(
                                    v.drop_first(),
                                ));
                                assert(enc_i32_items(v).len() >= e0.len() + 1);
                            }
                        }
                    }
                }
                Some(j2)
            }
        },
    }
}

/// String list items sit at position `j`, closed by a bracket.
pub open spec fn str_items_at(s: Seq<char>, j: int, v: Seq<Seq<char>>) -> bool {
    lit_at(s, j, enc_str_items(v)) && j + enc_str_items(v).len() < s.len() && s[j + enc_str_items(
        v,
    ).len() as int] == ']'
}

/// Parse string list items at position `j`, stopping before the closing
/// bracket.
#[verifier::rlimit(100)]
#[verifier::spinoff_prover]
fn parse_str_items(s: &Vec<char>, j: usize, out: &mut Vec<String>) -> (r: Option<usize>)
    requires
        j <= s@.len(),
    ensures
        r matches Some(j2) ==> j <= j2 <= s@.len(),
        forall|v: Seq<Seq<char>>| #![trigger str_items_at(s@, j as int, v)]
            str_items_at(s@, j as int, v) ==> (r matches Some(j2) && final(out).deep_view()
                == old(out).deep_view() + v && j2 == j + enc_str_items(v).len()),
    decreases s@.len() - j,
{
    if j < s.len() && s[j] == ']' {
        proof {
            assert forall|v: Seq<Seq<char>>| str_items_at(s@, j as int, v) implies v.len()
                == 0 by {
                if v.len() > 0 {
                    assert(s@.subrange(j as int, j + enc_str_items(v).len() as int)[0]
                        == enc_str_items(v)[0]);
                    assert(enc_str_items(v)[0] == enc_str(v[0])[0]);
                }
            }
            assert(out.deep_view() =~= out.deep_view() + Seq::<Seq<char>>::empty());
        }
        return Some(j);
    }
    let ghost pre = out.deep_view();
    proof {
        assert forall|v: Seq<Seq<char>>| str_items_at(s@, j as int, v) implies v.len() > 0
            && str_at(s@, j as int, v[0]) by {
            if v.len() == 0 {
                assert(s@[j as int] == ']');
            }
            let e0 = enc_str(v[0]);
            assert(e0.len() == 2 + escape(v[0]).len());
            if v.len() > 1 {
                assert(enc_str_items(v) == e0 + seq![','] + enc_str_items(v.drop_first()));
            }
            assert(s@.subrange(j as int, j + e0.len() as int) =~= e0) by {
                assert forall|q: int| 0 <= q < e0.len() implies s@[j + q] == e0[q] by {
                    assert(s@.subrange(j as int, j + enc_str_items(v).len() as int)[q]
                        == enc_str_items(v)[q]);
                }
            }
        }
        assert(s.len() == s@.len());
    }
    let parsed = parse_string(s, j);
    match parsed {
        None => {
            proof {
                assert forall|v: Seq<Seq<char>>| !str_items_at(s@, j as int, v) by {
                    if str_items_at(s@, j as int, v) {
                        assert(str_at(s@, j as int, v[0]));
                    }
                }
            }
            None
        },
        Some((x, j2)) => {
            out.push(x);
            proof {
                assert(out.deep_view() =~= pre.push(out@.last()@));
            }
            if j2 < s.len() {
                let c = s[j2];
                if c == ',' {
                    proof {
                        assert forall|v: Seq<Seq<char>>| str_items_at(s@, j as int, v) implies
                            v.len() > 1 && str_items_at(s@, j2 + 1, v.drop_first()) by {
                            let e0 = enc_str(v[0]);
                            if v.len() == 1 {
                                assert(s@[j + e0.len()] == ']');
                            }
                            assert(enc_str_items(v) == e0 + seq![','] + enc_str_items(
                                v.drop_first(),
                            ));
                            assert(s@.subrange(
                                j2 + 1,
                                j2 + 1 + enc_str_items(v.drop_first()).len() as int,
                            ) =~= enc_str_items(v.drop_first())) by {
                                assert forall|q: int|
                                    0 <= q < enc_str_items(v.drop_first()).len() implies s@[j2 + 1
                                    + q] == enc_str_items(v.drop_first())[q] by {
                                    assert(s@.subrange(
                                        j as int,
                                        j + enc_str_items(v).len() as int,
                                    )[e0.len() + 1 + q] == enc_str_items(v)[e0.len() + 1 + q]);
                                }
                            }
                        }
                    }
                    let r2 = parse_str_items(s, j2 + 1, out);
                    proof {
                        assert forall|v: Seq<Seq<char>>| str_items_at(s@, j as int, v) implies (
                        r2 matches Some(j3) && out.deep_view() == pre + v && j3 == j
                            + enc_str_items(v).len()) by {
                            assert(pre.push(v[0]) + v.drop_first() =~= pre + v);
                        }
                    }
                    r2
                } else {
                    proof {
                        assert forall|v: Seq<Seq<char>>| str_items_at(s@, j as int, v) implies (
                        out.deep_view() == pre + v && j2 == j + enc_str_items(v).len()) by {
                            if v.len() > 1 {
                                let e0 = enc_str(v[0]);
                                assert(enc_str_items(v) == e0 + seq![','] + enc_str_items(
                                    v.drop_first(),
                                ));
                                assert(s@.subrange(
                                    j as int,
                                    j + enc_str_items(v).len() as int,
                                )[e0.len() as int] == enc_str_items(v)[e0.len() as int]);
                                assert(s@[j2 as int] == ',');
                            }
                            assert(pre.push(v[0]) =~= pre + v);
                        }
                    }
                    Some(j2)
                }
            } else {
                proof {
                    assert forall|v: Seq<Seq<char>>| !str_items_at(s@, j as int, v) by {
                        if str_items_at(s@, j as int, v) {
                            assert(j + enc_str_items(v).len() < s@.len());
                            if v.len() > 1 {
                                let e0 = enc_str(v[0]);
                                assert(enc_str_items(v) == e0 + seq![','] + enc_str_items(
                                    v.drop_first(),
                                ));
                                assert(enc_str_items(v).len() >= e0.len() + 1);
                            }
                        }
                    }
                }
                Some(j2)
            }
        },
    }
}

/// An optional string list piece sits at position `j`.
pub open spec fn opt_str_list_at(s: Seq<char>, j: int, t: Option<Seq<Seq<char>>>) -> bool {
    lit_at(s, j, enc_opt_str_list(t))
}

/// Parse an optional JSON array of strings at position `j`.
fn parse_opt_str_list(s: &Vec<char>, j: usize) -> (r: Option<(Option<Vec<String>>, usize)>)
    requires
        j <= s@.len(),
    ensures
        r matches Some((_, j2)) ==> j <= j2 <= s@.len(),
        forall|t: Option<Seq<Seq<char>>>| #![trigger opt_str_list_at(s@, j as int, t)]
            opt_str_list_at(s@, j as int, t) ==> (r matches Some((o, j2)) && o.deep_view() == t
                && j2 == j + enc_opt_str_list(t).len()),
{
    proof {
        reveal_strlit("null");
    }
    match expect_lit(s, j, "null") {
        Some(j2) => {
            proof {
                reveal_strlit("null");
                assert forall|t: Option<Seq<Seq<char>>>| opt_str_list_at(s@, j as int, t) implies
                    t is None && j2 == j + enc_opt_str_list(t).len() by {
                    if t is Some {
                        let v = t->Some_0;
                        assert(s@.subrange(
                            j as int,
                            j + enc_opt_str_list(t).len() as int,
                        )[0] == enc_opt_str_list(t)[0]);
                        assert(s@.subrange(j as int, j + "null"@.len() as int)[0] == "null"@[0]);
                    }
                    assert(enc_opt_str_list(t) =~= "null"@);
                }
            }
            Some((None, j2))
        },
        None => {
            if j < s.len() && s[j] == '[' {
                let mut items: Vec<String> = Vec::new();
                proof {
                    assert forall|t: Option<Seq<Seq<char>>>| opt_str_list_at(
                        s@,
                        j as int,
                        t,
                    ) implies t is Some && str_items_at(s@, j + 1, t->Some_0) by {
                        reveal_strlit("null");
                        if t is None {
                            assert(lit_at(s@, j as int, "null"@)) by {
                                assert(enc_opt_str_list(t) =~= "null"@);
                            }
                        }
                        let v = t->Some_0;
                        let body = enc_str_items(v);
                        assert(enc_opt_str_list(t) == seq!['['] + body + seq![']']);
                        assert(s@.subrange(j + 1, j + 1 + body.len() as int) =~= body) by {
                            assert forall|q: int| 0 <= q < body.len() implies s@[j + 1 + q]
                                == body[q] by {
                                assert(s@.subrange(
                                    j as int,
                                    j + enc_opt_str_list(t).len() as int,
                                )[1 + q] == enc_opt_str_list(t)[1 + q]);
                            }
                        }
                        assert(s@.subrange(
                            j as int,
                            j + enc_opt_str_list(t).len() as int,
                        )[1 + body.len() as int] == enc_opt_str_list(t)[1 + body.len() as int]);
                        assert(s@[j + 1 + body.len() as int] == ']');
                    }
                }
                match parse_str_items(s, j + 1, &mut items) {
                    Some(j2) => {
                        match expect_lit(s, j2, "]") {
                            Some(j3) => {
                                proof {
                                    reveal_strlit("]");
                                    assert forall|t: Option<Seq<Seq<char>>>| opt_str_list_at(
                                        s@,
                                        j as int,
                                        t,
                                    ) implies (Some(items).deep_view() == t && j3 == j
                                        + enc_opt_str_list(t).len()) by {
                                        assert(items.deep_view() == t->Some_0);
                                    }
                                }
                                Some((Some(items), j3))
                            },
                            None => {
                                proof {
                                    reveal_strlit("]");
                                    assert forall|t: Option<Seq<Seq<char>>>| !opt_str_list_at(
                                        s@,
                                        j as int,
                                        t,
                                    ) by {
                                        if opt_str_list_at(s@, j as int, t) {
                                            assert(lit_at(s@, j2 as int, "]"@)) by {
                                                assert(s@[j2 as int] == ']');
                                                assert(s@.subrange(j2 as int, j2 + 1) =~= "]"@);
                                            }
                                        }
                                    }
                                }
                                None
                            },
                        }
                    },
                    None => {
                        proof {
                            assert forall|t: Option<Seq<Seq<char>>>| !opt_str_list_at(
                                s@,
                                j as int,
                                t,
                            ) by {}
                        }
                        None
                    },
                }
            } else {
                proof {
                    reveal_strlit("null");
                    assert forall|t: Option<Seq<Seq<char>>>| !opt_str_list_at(s@, j as int, t) by {
                        if opt_str_list_at(s@, j as int, t) {
                            if t is None {
                                assert(lit_at(s@, j as int, "null"@)) by {
                                    assert(enc_opt_str_list(t) =~= "null"@);
                                }
                            } else {
                                assert(s@.subrange(
                                    j as int,
                                    j + enc_opt_str_list(t).len() as int,
                                )[0] == enc_opt_str_list(t)[0]);
                                assert(s@[j as int] == '[');
                            }
                        }
                    }
                }
                None
            }
        },
    }
}

/// A step object at position `j` splits into its labelled fields.
proof fn lemma_step_fields(s: Seq<char>, j: int, st: crate::episode::EpisodeStepView)
    requires
        lit_at(s, j, enc_step(st)),
    ensures
        lit_at(s, j, "{\"index\":"@),
        num_at(s, j + "{\"index\":"@.len(), st.index as nat),
        str_at(s, j + "{\"index\":"@.len() + enc_nat(st.index as nat).len() + ",\"action\":"@.len(), st.action),
        int_at(
            s,
            j + "{\"index\":"@.len() + enc_nat(st.index as nat).len() + ",\"action\":"@.len()
                + enc_str(st.action).len() + ",\"observation\":"@.len() + enc_str(
                st.observation,
            ).len() + ",\"step_reward\":"@.len(),
            st.step_reward as int,
        ),
        lit_at(s, j + enc_step(st).len() - 1, "}"@),
        str_at(
            s,
            j + "{\"index\":"@.len() + enc_nat(st.index as nat).len() + ",\"action\":"@.len()
                + enc_str(st.action).len() + ",\"observation\":"@.len(),
            st.observation,
        ),
        lit_at(s, j + "{\"index\":"@.len() + enc_nat(st.index as nat).len(), ",\"action\":"@),
        lit_at(
            s,
            j + "{\"index\":"@.len() + enc_nat(st.index as nat).len() + ",\"action\":"@.len()
                + enc_str(st.action).len(),
            ",\"observation\":"@,
        ),
        lit_at(
            s,
            j + "{\"index\":"@.len() + enc_nat(st.index as nat).len() + ",\"action\":"@.len()
                + enc_str(st.action).len() + ",\"observation\":"@.len() + enc_str(
                st.observation,
            ).len(),
            ",\"step_reward\":"@,
        ),
{
    let l1 = "{\"index\":"@;
    let n = enc_nat(st.index as nat);
    let l2 = ",\"action\":"@;
    let a = enc_str(st.action);
    let l3 = ",\"observation\":"@;
    let o = enc_str(st.observation);
    let l4 = ",\"step_reward\":"@;
    let rw = enc_int(st.step_reward as int);
    let l5 = "}"@;
    assert(enc_step(st) == l1 + n + l2 + a + l3 + o + l4 + rw + l5);
    lemma_lit_split(s, j, l1 + n + l2 + a + l3 + o + l4 + rw, l5);
    lemma_lit_split(s, j, l1 + n + l2 + a + l3 + o + l4, rw);
    lemma_lit_split(s, j, l1 + n + l2 + a + l3 + o, l4);
    lemma_lit_split(s, j, l1 + n + l2 + a + l3, o);
    lemma_lit_split(s, j, l1 + n + l2 + a, l3);
    lemma_lit_split(s, j, l1 + n + l2, a);
    lemma_lit_split(s, j, l1 + n, l2);
    lemma_lit_split(s, j, l1, n);
    reveal_strlit("{\"index\":");
    reveal_strlit(",\"action\":");
    reveal_strlit(",\"observation\":");
    reveal_strlit(",\"step_reward\":");
    reveal_strlit("}");
    // number terminators: the following label starts with a comma or brace
    let p2 = j + l1.len() + n.len();
    assert(s.subrange(p2, p2 + l2.len() as int)[0] == l2[0]);
    assert(!is_digit(s[p2]));
    let p8 = j + l1.len() + n.len() + l2.len() + a.len() + l3.len() + o.len() + l4.len() + rw.len();
    assert(s.subrange(p8, p8 + l5.len() as int)[0] == l5[0]);
    assert(!is_digit(s[p8]));
    // quoted strings are their own str_at facts
    let p3 = j + l1.len() + n.len() + l2.len();
    assert(str_at(s, p3, st.action));
    let p5 = j + l1.len() + n.len() + l2.len() + a.len() + l3.len();
    assert(str_at(s, p5, st.observation));
}

/// One step piece sits at position `j`.
pub open spec fn step_at(s: Seq<char>, j: int, st: crate::episode::EpisodeStepView) -> bool {
    lit_at(s, j, enc_step(st))
}

/// Parse one step object at position `j`.
#[verifier::rlimit(100)]
#[verifier::spinoff_prover]
fn parse_step(s: &Vec<char>, j: usize) -> (r: Option<(crate::episode::EpisodeStep, usize)>)
    requires
        j <= s@.len(),
    ensures
        r matches Some((_, j2)) ==> j <= j2 <= s@.len(),
        forall|st: crate::episode::EpisodeStepView| #![trigger step_at(s@, j as int, st)]
            step_at(s@, j as int, st) ==> (r matches Some((p, j2)) && p@ == st && j2 == j
                + enc_step(st).len()),
{
    proof {
        assert(s.len() == s@.len());
        assert forall|st: crate::episode::EpisodeStepView| #![trigger step_at(s@, j as int, st)] step_at(s@, j as int, st) implies
            lit_at(s@, j as int, "{\"index\":"@) by {
            lemma_step_fields(s@, j as int, st);
        }
    }
    let j1 = match expect_lit(s, j, "{\"index\":") {
        Some(p) => p,
        None => {
            return None;
        },
    };
    let r1 = parse_u64(s, j1);
    proof {
        assert forall|st: crate::episode::EpisodeStepView| #![trigger step_at(s@, j as int, st)] step_at(s@, j as int, st) implies (
        r1 matches Some(p1) && p1.0 == st.index && p1.0 <= 4294967295u64 && p1.1 == j
            + "{\"index\":"@.len() + enc_nat(st.index as nat).len()) by {
            lemma_step_fields(s@, j as int, st);
            assert(num_at(s@, j1 as int, st.index as u64 as nat));
            assert(st.index as u64 as nat == st.index as nat);
            assert(enc_nat(st.index as u64 as nat) == enc_nat(st.index as nat));
        }
    }
    let (idx, j2) = match r1 {
        Some(p) => p,
        None => {
            return None;
        },
    };
    if idx > 4294967295u64 {
        return None;
    }
    let j3 = match expect_lit(s, j2, ",\"action\":") {
        Some(p) => p,
        None => {
            proof {
                assert forall|st: crate::episode::EpisodeStepView| !step_at(s@, j as int, st) by {
                    if step_at(s@, j as int, st) {
                        lemma_step_fields(s@, j as int, st);
                    }
                }
            }
            return None;
        },
    };
    let r2 = parse_string(s, j3);
    proof {
        assert forall|st: crate::episode::EpisodeStepView| #![trigger step_at(s@, j as int, st)] step_at(s@, j as int, st) implies (
        r2 matches Some(p2) && p2.0@ == st.action && p2.1 == j + "{\"index\":"@.len() + enc_nat(
            st.index as nat,
        ).len() + ",\"action\":"@.len() + enc_str(st.action).len()) by {
            lemma_step_fields(s@, j as int, st);
            assert(str_at(s@, j3 as int, st.action));
        }
    }
    let (action, j4) = match r2 {
        Some(p) => p,
        None => {
            return None;
        },
    };
    let j5 = match expect_lit(s, j4, ",\"observation\":") {
        Some(p) => p,
        None => {
            proof {
                assert forall|st: crate::episode::EpisodeStepView| !step_at(s@, j as int, st) by {
                    if step_at(s@, j as int, st) {
                        lemma_step_fields(s@, j as int, st);
                    }
                }
            }
            return None;
        },
    };
    let r3 = parse_string(s, j5);
    proof {
        assert forall|st: crate::episode::EpisodeStepView| #![trigger step_at(s@, j as int, st)] step_at(s@, j as int, st) implies (
        r3 matches Some(p3) && p3.0@ == st.observation && p3.1 == j + "{\"index\":"@.len()
            + enc_nat(st.index as nat).len() + ",\"action\":"@.len() + enc_str(st.action).len()
            + ",\"observation\":"@.len() + enc_str(st.observation).len()) by {
            lemma_step_fields(s@, j as int, st);
            assert(str_at(s@, j5 as int, st.observation));
        }
    }
    let (observation, j6) = match r3 {
        Some(p) => p,
        None => {
            return None;
        },
    };
    let j7 = match expect_lit(s, j6, ",\"step_reward\":") {
        Some(p) => p,
        None => {
            proof {
                assert forall|st: crate::episode::EpisodeStepView| !step_at(s@, j as int, st) by {
                    if step_at(s@, j as int, st) {
                        lemma_step_fields(s@, j as int, st);
                    }
                }
            }
            return None;
        },
    };
    let r4 = parse_i64(s, j7);
    proof {
        assert forall|st: crate::episode::EpisodeStepView| #![trigger step_at(s@, j as int, st)] step_at(s@, j as int, st) implies
            int_at(s@, j7 as int, st.step_reward as int) by {
            lemma_step_fields(s@, j as int, st);
        }
        assert forall|st: crate::episode::EpisodeStepView| #![trigger step_at(s@, j as int, st)] step_at(s@, j as int, st) implies (
        r4 matches Some(p4) && p4.0 == st.step_reward && p4.1 == j7 + enc_int(
            st.step_reward as int,
        ).len()) by {
            assert(int_at(s@, j7 as int, st.step_reward as int));
            assert(j7 + enc_int(st.step_reward as int).len() <= s@.len());
        }
        assert forall|st: crate::episode::EpisodeStepView| #![trigger step_at(s@, j as int, st)] step_at(s@, j as int, st) implies j7
            + enc_int(st.step_reward as int).len() == j + enc_step(st).len() - 1 by {
            reveal_strlit("}");
            lemma_step_fields(s@, j as int, st);
            assert(j6 == j + "{\"index\":"@.len() + enc_nat(st.index as nat).len()
                + ",\"action\":"@.len() + enc_str(st.action).len() + ",\"observation\":"@.len()
                + enc_str(st.observation).len());
            assert(j7 == j6 + ",\"step_reward\":"@.len());
            assert(enc_step(st) == "{\"index\":"@ + enc_nat(st.index as nat) + ",\"action\":"@
                + enc_str(st.action) + ",\"observation\":"@ + enc_str(st.observation)
                + ",\"step_reward\":"@ + enc_int(st.step_reward as int) + "}"@);
        }
    }
    let (rw, j8) = match r4 {
        Some(p) => p,
        None => {
            return None;
        },
    };
    let j9 = match expect_lit(s, j8, "}") {
        Some(p) => p,
        None => {
            proof {
                assert forall|st: crate::episode::EpisodeStepView| !step_at(s@, j as int, st) by {
                    if step_at(s@, j as int, st) {
                        lemma_step_fields(s@, j as int, st);
                        assert(enc_step(st) == "{\"index\":"@ + enc_nat(st.index as nat)
                            + ",\"action\":"@ + enc_str(st.action) + ",\"observation\":"@
                            + enc_str(st.observation) + ",\"step_reward\":"@ + enc_int(
                            st.step_reward as int,
                        ) + "}"@);
                    }
                }
            }
            return None;
        },
    };
    let step = crate::episode::EpisodeStep { index: idx as u32, action, observation, step_reward: rw };
    proof {
        assert forall|st: crate::episode::EpisodeStepView| #![trigger step_at(s@, j as int, st)] step_at(s@, j as int, st) implies (step@
            == st && j9 == j + enc_step(st).len()) by {
            reveal_strlit("}");
            lemma_step_fields(s@, j as int, st);
            assert(enc_step(st) == "{\"index\":"@ + enc_nat(st.index as nat) + ",\"action\":"@
                + enc_str(st.action) + ",\"observation\":"@ + enc_str(st.observation)
                + ",\"step_reward\":"@ + enc_int(st.step_reward as int) + "}"@);
        }
    }
    Some((step, j9))
}

/// A step's text opens with a brace.
proof fn lemma_step_head(st: crate::episode::EpisodeStepView)
    ensures
        enc_step(st).len() >= 1,
        enc_step(st)[0] == '{',
{
    reveal_strlit("{\"index\":");
    assert(enc_step(st)[0] == "{\"index\":"@[0]);
}

/// Step list items sit at position `j`, closed by a bracket.
pub open spec fn step_items_at(s: Seq<char>, j: int, v: Seq<crate::episode::EpisodeStepView>) -> bool {
    lit_at(s, j, enc_step_items(v)) && j + enc_step_items(v).len() < s.len() && s[j
        + enc_step_items(v).len() as int] == ']'
}

/// Parse step list items at position `j`, stopping before the closing
/// bracket.
#[verifier::rlimit(100)]
#[verifier::spinoff_prover]
fn parse_step_items(s: &Vec<char>, j: usize, out: &mut Vec<crate::episode::EpisodeStep>) -> (r:
    Option<usize>)
    requires
        j <= s@.len(),
    ensures
        r matches Some(j2) ==> j <= j2 <= s@.len(),
        forall|v: Seq<crate::episode::EpisodeStepView>| #![trigger step_items_at(s@, j as int, v)]
            step_items_at(s@, j as int, v) ==> (r matches Some(j2) && final(out).deep_view()
                == old(out).deep_view() + v && j2 == j + enc_step_items(v).len()),
    decreases s@.len() - j,
{
    if j < s.len() && s[j] == ']' {
        proof {
            assert forall|v: Seq<crate::episode::EpisodeStepView>| step_items_at(
                s@,
                j as int,
                v,
            ) implies v.len() == 0 by {
                if v.len() > 0 {
                    lemma_step_head(v[0]);
                    assert(s@.subrange(j as int, j + enc_step_items(v).len() as int)[0]
                        == enc_step_items(v)[0]);
                    assert(enc_step_items(v)[0] == enc_step(v[0])[0]);
                }
            }
            assert(out.deep_view() =~= out.deep_view()
                + Seq::<crate::episode::EpisodeStepView>::empty());
        }
        return Some(j);
    }
    let ghost pre = out.deep_view();
    proof {
        assert forall|v: Seq<crate::episode::EpisodeStepView>| step_items_at(
            s@,
            j as int,
            v,
        ) implies v.len() > 0 && step_at(s@, j as int, v[0]) by {
            if v.len() == 0 {
                assert(s@[j as int] == ']');
            }
            let e0 = enc_step(v[0]);
            if v.len() > 1 {
                assert(enc_step_items(v) == e0 + seq![','] + enc_step_items(v.drop_first()));
            }
            assert(s@.subrange(j as int, j + e0.len() as int) =~= e0) by {
                assert forall|q: int| 0 <= q < e0.len() implies s@[j + q] == e0[q] by {
                    assert(s@.subrange(j as int, j + enc_step_items(v).len() as int)[q]
                        == enc_step_items(v)[q]);
                }
            }
        }
        assert(s.len() == s@.len());
    }
    let parsed = parse_step(s, j);
    match parsed {
        None => {
            proof {
                assert forall|v: Seq<crate::episode::EpisodeStepView>| !step_items_at(
                    s@,
                    j as int,
                    v,
                ) by {
                    if step_items_at(s@, j as int, v) {
                        assert(step_at(s@, j as int, v[0]));
                    }
                }
            }
            None
        },
        Some((x, j2)) => {
            out.push(x);
            proof {
                assert(out.deep_view() =~= pre.push(out@.last()@));
            }
            if j2 < s.len() {
                let c = s[j2];
                if c == ',' {
                    proof {
                        assert forall|v: Seq<crate::episode::EpisodeStepView>| step_items_at(
                            s@,
                            j as int,
                            v,
                        ) implies v.len() > 1 && step_items_at(s@, j2 + 1, v.drop_first()) by {
                            let e0 = enc_step(v[0]);
                            if v.len() == 1 {
                                assert(s@[j + e0.len()] == ']');
                            }
                            assert(enc_step_items(v) == e0 + seq![','] + enc_step_items(
                                v.drop_first(),
                            ));
                            assert(s@.subrange(
                                j2 + 1,
                                j2 + 1 + enc_step_items(v.drop_first()).len() as int,
                            ) =~= enc_step_items(v.drop_first())) by {
                                assert forall|q: int|
                                    0 <= q < enc_step_items(v.drop_first()).len() implies s@[j2 + 1
                                    + q] == enc_step_items(v.drop_first())[q] by {
                                    assert(s@.subrange(
                                        j as int,
                                        j + enc_step_items(v).len() as int,
                                    )[e0.len() + 1 + q] == enc_step_items(v)[e0.len() + 1 + q]);
                                }
                            }
                        }
                    }
                    let r2 = parse_step_items(s, j2 + 1, out);
                    proof {
                        assert forall|v: Seq<crate::episode::EpisodeStepView>| step_items_at(
                            s@,
                            j as int,
                            v,
                        ) implies (r2 matches Some(j3) && out.deep_view() == pre + v && j3 == j
                            + enc_step_items(v).len()) by {
                            assert(pre.push(v[0]) + v.drop_first() =~= pre + v);
                        }
                    }
                    r2
                } else {
                    proof {
                        assert forall|v: Seq<crate::episode::EpisodeStepView>| step_items_at(
                            s@,
                            j as int,
                            v,
                        ) implies (out.deep_view() == pre + v && j2 == j + enc_step_items(
                            v,
                        ).len()) by {
                            if v.len() > 1 {
                                let e0 = enc_step(v[0]);
                                assert(enc_step_items(v) == e0 + seq![','] + enc_step_items(
                                    v.drop_first(),
                                ));
                                assert(s@.subrange(
                                    j as int,
                                    j + enc_step_items(v).len() as int,
                                )[e0.len() as int] == enc_step_items(v)[e0.len() as int]);
                                assert(s@[j2 as int] == ',');
                            }
                            assert(pre.push(v[0]) =~= pre + v);
                        }
                    }
                    Some(j2)
                }
            } else {
                proof {
                    assert forall|v: Seq<crate::episode::EpisodeStepView>| !step_items_at(
                        s@,
                        j as int,
                        v,
                    ) by {
                        if step_items_at(s@, j as int, v) {
                            assert(j + enc_step_items(v).len() < s@.len());
                            if v.len() > 1 {
                                let e0 = enc_step(v[0]);
                                assert(enc_step_items(v) == e0 + seq![','] + enc_step_items(
                                    v.drop_first(),
                                ));
                                assert(enc_step_items(v).len() >= e0.len() + 1);
                            }
                        }
                    }
                }
                Some(j2)
            }
        },
    }
}

/// An optional step list piece sits at position `j`.
pub open spec fn opt_steps_at(
    s: Seq<char>,
    j: int,
    t: Option<Seq<crate::episode::EpisodeStepView>>,
) -> bool {
    lit_at(s, j, enc_opt_steps(t))
}

/// Parse an optional JSON array of steps at position `j`.
fn parse_opt_steps(s: &Vec<char>, j: usize) -> (r: Option<
    (Option<Vec<crate::episode::EpisodeStep>>, usize),
>)
    requires
        j <= s@.len(),
    ensures
        r matches Some((_, j2)) ==> j <= j2 <= s@.len(),
        forall|t: Option<Seq<crate::episode::EpisodeStepView>>|
            #![trigger opt_steps_at(s@, j as int, t)]
            opt_steps_at(s@, j as int, t) ==> (r matches Some((o, j2)) && o.deep_view() == t && j2
                == j + enc_opt_steps(t).len()),
{
    proof {
        reveal_strlit("null");
    }
    match expect_lit(s, j, "null") {
        Some(j2) => {
            proof {
                reveal_strlit("null");
                assert forall|t: Option<Seq<crate::episode::EpisodeStepView>>| opt_steps_at(
                    s@,
                    j as int,
                    t,
                ) implies t is None && j2 == j + enc_opt_steps(t).len() by {
                    if t is Some {
                        let v = t->Some_0;
                        assert(s@.subrange(
                            j as int,
                            j + enc_opt_steps(t).len() as int,
                        )[0] == enc_opt_steps(t)[0]);
                        assert(s@.subrange(j as int, j + "null"@.len() as int)[0] == "null"@[0]);
                    }
                    assert(enc_opt_steps(t) =~= "null"@);
                }
            }
            Some((None, j2))
        },
        None => {
            if j < s.len() && s[j] == '[' {
                let mut items: Vec<crate::episode::EpisodeStep> = Vec::new();
                proof {
                    assert forall|t: Option<Seq<crate::episode::EpisodeStepView>>| opt_steps_at(
                        s@,
                        j as int,
                        t,
                    ) implies t is Some && step_items_at(s@, j + 1, t->Some_0) by {
                        reveal_strlit("null");
                        if t is None {
                            assert(lit_at(s@, j as int, "null"@)) by {
                                assert(enc_opt_steps(t) =~= "null"@);
                            }
                        }
                        let v = t->Some_0;
                        let body = enc_step_items(v);
                        assert(enc_opt_steps(t) == seq!['['] + body + seq![']']);
                        assert(s@.subrange(j + 1, j + 1 + body.len() as int) =~= body) by {
                            assert forall|q: int| 0 <= q < body.len() implies s@[j + 1 + q]
                                == body[q] by {
                                assert(s@.subrange(
                                    j as int,
                                    j + enc_opt_steps(t).len() as int,
                                )[1 + q] == enc_opt_steps(t)[1 + q]);
                            }
                        }
                        assert(s@.subrange(
                            j as int,
                            j + enc_opt_steps(t).len() as int,
                        )[1 + body.len() as int] == enc_opt_steps(t)[1 + body.len() as int]);
                        assert(s@[j + 1 + body.len() as int] == ']');
                    }
                }
                match parse_step_items(s, j + 1, &mut items) {
                    Some(j2) => {
                        match expect_lit(s, j2, "]") {
                            Some(j3) => {
                                proof {
                                    reveal_strlit("]");
                                    assert forall|t: Option<Seq<crate::episode::EpisodeStepView>>|
                                        opt_steps_at(s@, j as int, t) implies (Some(
                                        items,
                                    ).deep_view() == t && j3 == j + enc_opt_steps(t).len()) by {
                                        assert(items.deep_view() == t->Some_0);
                                    }
                                }
                                Some((Some(items), j3))
                            },
                            None => {
                                proof {
                                    reveal_strlit("]");
                                    assert forall|t: Option<Seq<crate::episode::EpisodeStepView>>|
                                        !opt_steps_at(s@, j as int, t) by {
                                        if opt_steps_at(s@, j as int, t) {
                                            assert(lit_at(s@, j2 as int, "]"@)) by {
                                                assert(s@[j2 as int] == ']');
                                                assert(s@.subrange(j2 as int, j2 + 1) =~= "]"@);
                                            }
                                        }
                                    }
                                }
                                None
                            },
                        }
                    },
                    None => {
                        proof {
                            assert forall|t: Option<Seq<crate::episode::EpisodeStepView>>|
                                !opt_steps_at(s@, j as int, t) by {}
                        }
                        None
                    },
                }
            } else {
                proof {
                    reveal_strlit("null");
                    assert forall|t: Option<Seq<crate::episode::EpisodeStepView>>| !opt_steps_at(
                        s@,
                        j as int,
                        t,
                    ) by {
                        if opt_steps_at(s@, j as int, t) {
                            if t is None {
                                assert(lit_at(s@, j as int, "null"@)) by {
                                    assert(enc_opt_steps(t) =~= "null"@);
                                }
                            } else {
                                assert(s@.subrange(
                                    j as int,
                                    j + enc_opt_steps(t).len() as int,
                                )[0] == enc_opt_steps(t)[0]);
                                assert(s@[j as int] == '[');
                            }
                        }
                    }
                }
                None
            }
        },
    }
}

/// Offset of the id digits in an episode line.
pub open spec fn ep_off1(e: crate::episode::EpisodeView) -> int {
    "{\"id\":\""@.len() as int
}

/// Offset of the task id string.
pub open spec fn ep_off2(e: crate::episode::EpisodeView) -> int {
    ep_off1(e) + 36 + "\",\"task_id\":"@.len()
}

/// Offset of the embedding array's opening bracket.
pub open spec fn ep_off3(e: crate::episode::EpisodeView) -> int {
    ep_off2(e) + enc_str(e.task_id).len() + ",\"state_embedding\":"@.len()
}

/// Offset of the reward digits.
pub open spec fn ep_off4(e: crate::episode::EpisodeView) -> int {
    ep_off3(e) + enc_emb(e.state_embedding).len() + ",\"reward\":"@.len()
}

/// Offset of the metadata piece.
pub open spec fn ep_off5(e: crate::episode::EpisodeView) -> int {
    ep_off4(e) + enc_int(e.reward as int).len() + ",\"metadata\":"@.len()
}

/// Offset of the steps piece.
pub open spec fn ep_off6(e: crate::episode::EpisodeView) -> int {
    ep_off5(e) + enc_opt_str(e.metadata).len() + ",\"steps\":"@.len()
}

/// Offset of the timestamp piece.
pub open spec fn ep_off7(e: crate::episode::EpisodeView) -> int {
    ep_off6(e) + enc_opt_steps(e.steps).len() + ",\"timestamp\":"@.len()
}

/// Offset of the tags piece.
pub open spec fn ep_off8(e: crate::episode::EpisodeView) -> int {
    ep_off7(e) + enc_opt_i64(e.timestamp).len() + ",\"tags\":"@.len()
}

/// Offset of the source piece.
pub open spec fn ep_off9(e: crate::episode::EpisodeView) -> int {
    ep_off8(e) + enc_opt_str_list(e.tags).len() + ",\"source\":"@.len()
}

/// Offset of the user id piece.
pub open spec fn ep_off10(e: crate::episode::EpisodeView) -> int {
    ep_off9(e) + enc_opt_str(e.source).len() + ",\"user_id\":"@.len()
}

/// An episode line splits into its labelled fields.
#[verifier::rlimit(100)]
#[verifier::spinoff_prover]
proof fn lemma_episode_fields(s: Seq<char>, j0: int, e: crate::episode::EpisodeView)
    requires
        lit_at(s, j0, enc_episode(e)),
    ensures
        lit_at(s, j0, "{\"id\":\""@),
        uuid_at(s, j0 + ep_off1(e), e.id),
        lit_at(s, j0 + ep_off1(e) + 36, "\",\"task_id\":"@),
        str_at(s, j0 + ep_off2(e), e.task_id),
        lit_at(s, j0 + ep_off2(e) + enc_str(e.task_id).len(), ",\"state_embedding\":"@),
        s[j0 + ep_off3(e)] == '[',
        i32_items_at(s, j0 + ep_off3(e) + 1, e.state_embedding),
        lit_at(s, j0 + ep_off3(e) + enc_emb(e.state_embedding).len(), ",\"reward\":"@),
        int_at(s, j0 + ep_off4(e), e.reward as int),
        lit_at(s, j0 + ep_off4(e) + enc_int(e.reward as int).len(), ",\"metadata\":"@),
        opt_str_at(s, j0 + ep_off5(e), e.metadata),
        lit_at(s, j0 + ep_off5(e) + enc_opt_str(e.metadata).len(), ",\"steps\":"@),
        opt_steps_at(s, j0 + ep_off6(e), e.steps),
        lit_at(s, j0 + ep_off6(e) + enc_opt_steps(e.steps).len(), ",\"timestamp\":"@),
        opt_i64_at(s, j0 + ep_off7(e), e.timestamp),
        lit_at(s, j0 + ep_off7(e) + enc_opt_i64(e.timestamp).len(), ",\"tags\":"@),
        opt_str_list_at(s, j0 + ep_off8(e), e.tags),
        lit_at(s, j0 + ep_off8(e) + enc_opt_str_list(e.tags).len(), ",\"source\":"@),
        opt_str_at(s, j0 + ep_off9(e), e.source),
        lit_at(s, j0 + ep_off9(e) + enc_opt_str(e.source).len(), ",\"user_id\":"@),
        opt_str_at(s, j0 + ep_off10(e), e.user_id),
        lit_at(s, j0 + ep_off10(e) + enc_opt_str(e.user_id).len(), "}"@),
        j0 + ep_off10(e) + enc_opt_str(e.user_id).len() + 1 == j0 + enc_episode(e).len(),
{
    let l1 = "{\"id\":\""@;
    let p_id = enc_uuid(e.id);
    let l2 = "\",\"task_id\":"@;
    let p_task = enc_str(e.task_id);
    let l3 = ",\"state_embedding\":"@;
    let p_emb = enc_emb(e.state_embedding);
    let l4 = ",\"reward\":"@;
    let p_rw = enc_int(e.reward as int);
    let l5 = ",\"metadata\":"@;
    let p_md = enc_opt_str(e.metadata);
    let l6 = ",\"steps\":"@;
    let p_st = enc_opt_steps(e.steps);
    let l7 = ",\"timestamp\":"@;
    let p_ts = enc_opt_i64(e.timestamp);
    let l8 = ",\"tags\":"@;
    let p_tg = enc_opt_str_list(e.tags);
    let l9 = ",\"source\":"@;
    let p_src = enc_opt_str(e.source);
    let l10 = ",\"user_id\":"@;
    let p_uid = enc_opt_str(e.user_id);
    let l11 = "}"@;
    assert(enc_episode(e) == l1 + p_id + l2 + p_task + l3 + p_emb + l4 + p_rw + l5 + p_md + l6
        + p_st + l7 + p_ts + l8 + p_tg + l9 + p_src + l10 + p_uid + l11);
    lemma_lit_split(s, j0, l1 + p_id + l2 + p_task + l3 + p_emb + l4 + p_rw + l5 + p_md + l6 + p_st
        + l7 + p_ts + l8 + p_tg + l9 + p_src + l10 + p_uid, l11);
    lemma_lit_split(s, j0, l1 + p_id + l2 + p_task + l3 + p_emb + l4 + p_rw + l5 + p_md + l6 + p_st
        + l7 + p_ts + l8 + p_tg + l9 + p_src + l10, p_uid);
    lemma_lit_split(s, j0, l1 + p_id + l2 + p_task + l3 + p_emb + l4 + p_rw + l5 + p_md + l6 + p_st
        + l7 + p_ts + l8 + p_tg + l9 + p_src, l10);
    lemma_lit_split(s, j0, l1 + p_id + l2 + p_task + l3 + p_emb + l4 + p_rw + l5 + p_md + l6 + p_st
        + l7 + p_ts + l8 + p_tg + l9, p_src);
    lemma_lit_split(s, j0, l1 + p_id + l2 + p_task + l3 + p_emb + l4 + p_rw + l5 + p_md + l6 + p_st
        + l7 + p_ts + l8 + p_tg, l9);
    lemma_lit_split(s, j0, l1 + p_id + l2 + p_task + l3 + p_emb + l4 + p_rw + l5 + p_md + l6 + p_st
        + l7 + p_ts + l8, p_tg);
    lemma_lit_split(s, j0, l1 + p_id + l2 + p_task + l3 + p_emb + l4 + p_rw + l5 + p_md + l6 + p_st
        + l7 + p_ts, l8);
    lemma_lit_split(s, j0, l1 + p_id + l2 + p_task + l3 + p_emb + l4 + p_rw + l5 + p_md + l6 + p_st
        + l7, p_ts);
    lemma_lit_split(s, j0, l1 + p_id + l2 + p_task + l3 + p_emb + l4 + p_rw + l5 + p_md + l6 + p_st,
        l7);
    lemma_lit_split(s, j0, l1 + p_id + l2 + p_task + l3 + p_emb + l4 + p_rw + l5 + p_md + l6, p_st);
    lemma_lit_split(s, j0, l1 + p_id + l2 + p_task + l3 + p_emb + l4 + p_rw + l5 + p_md, l6);
    lemma_lit_split(s, j0, l1 + p_id + l2 + p_task + l3 + p_emb + l4 + p_rw + l5, p_md);
    lemma_lit_split(s, j0, l1 + p_id + l2 + p_task + l3 + p_emb + l4 + p_rw, l5);
    lemma_lit_split(s, j0, l1 + p_id + l2 + p_task + l3 + p_emb + l4, p_rw);
    lemma_lit_split(s, j0, l1 + p_id + l2 + p_task + l3 + p_emb, l4);
    lemma_lit_split(s, j0, l1 + p_id + l2 + p_task + l3, p_emb);
    lemma_lit_split(s, j0, l1 + p_id + l2 + p_task, l3);
    lemma_lit_split(s, j0, l1 + p_id + l2, p_task);
    lemma_lit_split(s, j0, l1 + p_id, l2);
    lemma_lit_split(s, j0, l1, p_id);
    // the embedding array splits into bracket, items, bracket
    let items = enc_i32_items(e.state_embedding);
    assert(p_emb == seq!['['] + items + seq![']']);
    lemma_lit_split(s, j0 + ep_off3(e), seq!['['] + items, seq![']']);
    lemma_lit_split(s, j0 + ep_off3(e), seq!['['], items);
    assert(s.subrange(j0 + ep_off3(e), j0 + ep_off3(e) + 1)[0] == '[');
    assert(s.subrange(
        j0 + ep_off3(e) + 1 + items.len(),
        j0 + ep_off3(e) + 1 + items.len() + 1,
    )[0] == ']');
    // number terminators: the labels after them start with a comma or brace
    reveal_strlit(",\"metadata\":");
    reveal_strlit(",\"tags\":");
    reveal_strlit("}");
    let p4e = j0 + ep_off4(e) + p_rw.len();
    assert(s.subrange(p4e, p4e + l5.len() as int)[0] == l5[0]);
    assert(!is_digit(s[p4e]));
    let p7e = j0 + ep_off7(e) + p_ts.len();
    assert(s.subrange(p7e, p7e + l8.len() as int)[0] == l8[0]);
    assert(!is_digit(s[p7e]));
}

/// One episode object sits at position `j`.
pub open spec fn episode_at(s: Seq<char>, j: int, e: crate::episode::EpisodeView) -> bool {
    lit_at(s, j, enc_episode(e))
}

/// Parse the opening of an episode object at position `j`: id and task
/// id.
#[verifier::rlimit(100)]
#[verifier::spinoff_prover]
fn parse_episode_open(s: &Vec<char>, j: usize) -> (r: Option<(u128, String, usize)>)
    requires
        j <= s@.len(),
    ensures
        r matches Some(h) ==> j <= h.2 <= s@.len(),
        forall|e: crate::episode::EpisodeView| #![trigger episode_at(s@, j as int, e)]
            episode_at(s@, j as int, e) ==> (r matches Some(h) && h.0 == e.id && h.1@ == e.task_id
                && h.2 == j + ep_off2(e) + enc_str(e.task_id).len()),
{
    proof {
        assert(s.len() == s@.len());
        assert forall|e: crate::episode::EpisodeView| #![trigger episode_at(s@, j as int, e)]
            episode_at(s@, j as int, e) implies lit_at(s@, j as int, "{\"id\":\""@) by {
            lemma_episode_fields(s@, j as int, e);
        }
    }
    let j1 = match expect_lit(s, j, "{\"id\":\"") {
        Some(p) => p,
        None => {
            return None;
        },
    };
    let r1 = parse_uuid(s, j1);
    proof {
        assert forall|e: crate::episode::EpisodeView| #![trigger episode_at(s@, j as int, e)]
            episode_at(s@, j as int, e) implies (r1 matches Some(p1) && p1.0 == e.id && p1.1 == j + ep_off1(e) + 36) by {
            lemma_episode_fields(s@, j as int, e);
            assert(uuid_at(s@, j1 as int, e.id));
        }
    }
    let (id, j2) = match r1 {
        Some(p) => p,
        None => {
            return None;
        },
    };
    let j3 = match expect_lit(s, j2, "\",\"task_id\":") {
        Some(p) => p,
        None => {
            proof {
                assert forall|e: crate::episode::EpisodeView| #![trigger episode_at(s@, j as int, e)]
                    !episode_at(s@, j as int, e) by {
                    if episode_at(s@, j as int, e) {
                        lemma_episode_fields(s@, j as int, e);
                    }
                }
            }
            return None;
        },
    };
    let r2 = parse_string(s, j3);
    proof {
        assert forall|e: crate::episode::EpisodeView| #![trigger episode_at(s@, j as int, e)]
            episode_at(s@, j as int, e) implies (r2 matches Some(p2) && p2.0@ == e.task_id && p2.1 == j + ep_off2(e) + enc_str(e.task_id).len()) by {
            lemma_episode_fields(s@, j as int, e);
            assert(str_at(s@, j3 as int, e.task_id));
        }
    }
    let (task_id, j4) = match r2 {
        Some(p) => p,
        None => {
            return None;
        },
    };
    Some((id, task_id, j4))
}

/// Parse the first half of an episode object at position `j`: id, task
/// id, embedding, reward and metadata.
#[verifier::rlimit(100)]
#[verifier::spinoff_prover]
fn parse_episode_head(s: &Vec<char>, j: usize) -> (r: Option<
    (u128, String, Vec<i32>, i64, Option<String>, usize),
>)
    requires
        j <= s@.len(),
    ensures
        r matches Some(h) ==> j <= h.5 <= s@.len(),
        forall|e: crate::episode::EpisodeView| #![trigger episode_at(s@, j as int, e)]
            episode_at(s@, j as int, e) ==> (r matches Some(h) && h.0 == e.id && h.1@ == e.task_id
                && h.2@ == e.state_embedding && h.3 == e.reward && h.4.deep_view() == e.metadata
                && h.5 == j + ep_off5(e) + enc_opt_str(e.metadata).len()),
{
    let opened = match parse_episode_open(s, j) {
        Some(h) => h,
        None => {
            return None;
        },
    };
    let (id, task_id, j4) = opened;
    proof {
        assert(s.len() == s@.len());
        reveal_strlit("],\"reward\":");
        reveal_strlit(",\"reward\":");
        assert forall|e: crate::episode::EpisodeView| #![trigger episode_at(s@, j as int, e)]
            episode_at(s@, j as int, e) implies (lit_at(
            s@,
            j4 as int,
            ",\"state_embedding\":"@,
        ) && s@[j4 + ",\"state_embedding\":"@.len()] == '[' && i32_items_at(
            s@,
            j4 + ",\"state_embedding\":"@.len() + 1,
            e.state_embedding,
        ) && lit_at(
            s@,
            j4 + ",\"state_embedding\":"@.len() + 1 + enc_i32_items(e.state_embedding).len(),
            "],\"reward\":"@,
        ) && int_at(s@, j + ep_off4(e), e.reward as int) && lit_at(
            s@,
            j + ep_off4(e) + enc_int(e.reward as int).len(),
            ",\"metadata\":"@,
        ) && opt_str_at(s@, j + ep_off5(e), e.metadata) && j + ep_off4(e) == j4
            + ",\"state_embedding\":"@.len() + 1 + enc_i32_items(e.state_embedding).len()
            + "],\"reward\":"@.len()) by {
            lemma_episode_fields(s@, j as int, e);
            assert(lit_at(s@, j4 + ",\"state_embedding\":"@.len() + 1 + enc_i32_items(
                e.state_embedding,
            ).len(), "],\"reward\":"@)) by {
                reveal_strlit("],\"reward\":");
                reveal_strlit(",\"reward\":");
                let jb = j + ep_off3(e) + 1 + enc_i32_items(e.state_embedding).len();
                assert(s@[jb] == ']');
                assert(lit_at(s@, jb + 1, ",\"reward\":"@));
                assert forall|q: int| 0 <= q < "],\"reward\":"@.len() implies s@.subrange(
                    jb,
                    jb + "],\"reward\":"@.len() as int,
                )[q] == "],\"reward\":"@[q] by {
                    assert("],\"reward\":"@ =~= seq![']'] + ",\"reward\":"@);
                    if q > 0 {
                        assert(s@.subrange(jb + 1, jb + 1 + ",\"reward\":"@.len() as int)[q - 1]
                            == ",\"reward\":"@[q - 1]);
                    }
                }
                assert(s@.subrange(jb, jb + "],\"reward\":"@.len() as int)
                    =~= "],\"reward\":"@);
            }
        }
    }
    let j5 = match expect_lit(s, j4, ",\"state_embedding\":") {
        Some(p) => p,
        None => {
            return None;
        },
    };
    if !(j5 < s.len() && s[j5] == '[') {
        return None;
    }
    let mut emb: Vec<i32> = Vec::new();
    let r3 = parse_i32_items(s, j5 + 1, &mut emb);
    let j6 = match r3 {
        Some(p) => p,
        None => {
            return None;
        },
    };
    let j7 = match expect_lit(s, j6, "],\"reward\":") {
        Some(p) => p,
        None => {
            return None;
        },
    };
    let r4 = parse_i64(s, j7);
    proof {
        assert forall|e: crate::episode::EpisodeView| #![trigger episode_at(s@, j as int, e)]
            episode_at(s@, j as int, e) implies (r4 matches Some(p4) && p4.0 == e.reward && p4.1
            == j + ep_off4(e) + enc_int(e.reward as int).len()) by {
            assert(emb@ == e.state_embedding);
            assert(j7 == j + ep_off4(e));
            assert(int_at(s@, j7 as int, e.reward as int));
        }
    }
    let (reward, j8) = match r4 {
        Some(p) => p,
        None => {
            return None;
        },
    };
    let j9 = match expect_lit(s, j8, ",\"metadata\":") {
        Some(p) => p,
        None => {
            return None;
        },
    };
    let r5 = parse_opt_str(s, j9);
    proof {
        assert forall|e: crate::episode::EpisodeView| #![trigger episode_at(s@, j as int, e)]
            episode_at(s@, j as int, e) implies (r5 matches Some(p5) && p5.0.deep_view()
            == e.metadata && p5.1 == j + ep_off5(e) + enc_opt_str(e.metadata).len()) by {
            assert(j9 == j + ep_off5(e));
            assert(opt_str_at(s@, j9 as int, e.metadata));
        }
    }
    let (metadata, j10) = match r5 {
        Some(p) => p,
        None => {
            return None;
        },
    };
    Some((id, task_id, emb, reward, metadata, j10))
}

/// Parse one episode object at position `j`. Reads back exactly what
/// `encode_episode` wrote.
#[verifier::rlimit(100)]
#[verifier::spinoff_prover]
pub fn parse_episode_at(s: &Vec<char>, j: usize) -> (r: Option<(crate::episode::Episode, usize)>)
    requires
        j <= s@.len(),
    ensures
        r matches Some((_, j2)) ==> j <= j2 <= s@.len(),
        forall|e: crate::episode::EpisodeView| #![trigger episode_at(s@, j as int, e)]
            episode_at(s@, j as int, e) ==> (r matches Some((ep, j2)) && ep@ == e && j2 == j
                + enc_episode(e).len()),
{
    let head = match parse_episode_head(s, j) {
        Some(h) => h,
        None => {
            return None;
        },
    };
    let (id, task_id, emb, reward, metadata, j10) = head;
    let j11 = match expect_lit(s, j10, ",\"steps\":") {
        Some(p) => p,
        None => {
            proof {
                assert forall|e: crate::episode::EpisodeView| #![trigger episode_at(s@, j as int, e)]
                    !episode_at(s@, j as int, e) by {
                    if episode_at(s@, j as int, e) {
                        lemma_episode_fields(s@, j as int, e);
                    }
                }
            }
            return None;
        },
    };
    let r6 = parse_opt_steps(s, j11);
    proof {
        assert forall|e: crate::episode::EpisodeView| #![trigger episode_at(s@, j as int, e)]
            episode_at(s@, j as int, e) implies (r6 matches Some(p6) && p6.0.deep_view() == e.steps
            && p6.1 == j + ep_off6(e) + enc_opt_steps(e.steps).len()) by {
            lemma_episode_fields(s@, j as int, e);
            assert(opt_steps_at(s@, j11 as int, e.steps));
        }
    }
    let (steps, j12) = match r6 {
        Some(p) => p,
        None => {
            return None;
        },
    };
    let j13 = match expect_lit(s, j12, ",\"timestamp\":") {
        Some(p) => p,
        None => {
            proof {
                assert forall|e: crate::episode::EpisodeView| #![trigger episode_at(s@, j as int, e)]
                    !episode_at(s@, j as int, e) by {
                    if episode_at(s@, j as int, e) {
                        lemma_episode_fields(s@, j as int, e);
                    }
                }
            }
            return None;
        },
    };
    let r7 = parse_opt_i64(s, j13);
    proof {
        assert forall|e: crate::episode::EpisodeView| #![trigger episode_at(s@, j as int, e)]
            episode_at(s@, j as int, e) implies (r7 matches Some(p7) && p7.0 == e.timestamp && p7.1 == j + ep_off7(e) + enc_opt_i64(e.timestamp).len()) by {
            lemma_episode_fields(s@, j as int, e);
            assert(opt_i64_at(s@, j13 as int, e.timestamp));
        }
    }
    let (timestamp, j14) = match r7 {
        Some(p) => p,
        None => {
            return None;
        },
    };
    let j15 = match expect_lit(s, j14, ",\"tags\":") {
        Some(p) => p,
        None => {
            proof {
                assert forall|e: crate::episode::EpisodeView| #![trigger episode_at(s@, j as int, e)]
                    !episode_at(s@, j as int, e) by {
                    if episode_at(s@, j as int, e) {
                        lemma_episode_fields(s@, j as int, e);
                    }
                }
            }
            return None;
        },
    };
    let r8 = parse_opt_str_list(s, j15);
    proof {
        assert forall|e: crate::episode::EpisodeView| #![trigger episode_at(s@, j as int, e)]
            episode_at(s@, j as int, e) implies (r8 matches Some(p8) && p8.0.deep_view() == e.tags && p8.1 == j + ep_off8(e) + enc_opt_str_list(e.tags).len()) by {
            lemma_episode_fields(s@, j as int, e);
            assert(opt_str_list_at(s@, j15 as int, e.tags));
        }
    }
    let (tags, j16) = match r8 {
        Some(p) => p,
        None => {
            return None;
        },
    };
    let j17 = match expect_lit(s, j16, ",\"source\":") {
        Some(p) => p,
        None => {
            proof {
                assert forall|e: crate::episode::EpisodeView| #![trigger episode_at(s@, j as int, e)]
                    !episode_at(s@, j as int, e) by {
                    if episode_at(s@, j as int, e) {
                        lemma_episode_fields(s@, j as int, e);
                    }
                }
            }
            return None;
        },
    };
    let r9 = parse_opt_str(s, j17);
    proof {
        assert forall|e: crate::episode::EpisodeView| #![trigger episode_at(s@, j as int, e)]
            episode_at(s@, j as int, e) implies (r9 matches Some(p9) && p9.0.deep_view() == e.source
            && p9.1 == j + ep_off9(e) + enc_opt_str(e.source).len()) by {
            lemma_episode_fields(s@, j as int, e);
            assert(opt_str_at(s@, j17 as int, e.source));
        }
    }
    let (source, j18) = match r9 {
        Some(p) => p,
        None => {
            return None;
        },
    };
    let j19 = match expect_lit(s, j18, ",\"user_id\":") {
        Some(p) => p,
        None => {
            proof {
                assert forall|e: crate::episode::EpisodeView| #![trigger episode_at(s@, j as int, e)]
                    !episode_at(s@, j as int, e) by {
                    if episode_at(s@, j as int, e) {
                        lemma_episode_fields(s@, j as int, e);
                    }
                }
            }
            return None;
        },
    };
    let r10 = parse_opt_str(s, j19);
    proof {
        assert forall|e: crate::episode::EpisodeView| #![trigger episode_at(s@, j as int, e)]
            episode_at(s@, j as int, e) implies (r10 matches Some(p10) && p10.0.deep_view() == e.user_id
            && p10.1 == j + ep_off10(e) + enc_opt_str(e.user_id).len()) by {
            lemma_episode_fields(s@, j as int, e);
            assert(opt_str_at(s@, j19 as int, e.user_id));
        }
    }
    let (user_id, j20) = match r10 {
        Some(p) => p,
        None => {
            return None;
        },
    };
    let j21 = match expect_lit(s, j20, "}") {
        Some(p) => p,
        None => {
            proof {
                assert forall|e: crate::episode::EpisodeView| #![trigger episode_at(s@, j as int, e)]
                    !episode_at(s@, j as int, e) by {
                    if episode_at(s@, j as int, e) {
                        lemma_episode_fields(s@, j as int, e);
                    }
                }
            }
            return None;
        },
    };
    let ep = crate::episode::Episode {
        id,
        task_id,
        state_embedding: emb,
        reward,
        metadata,
        steps,
        timestamp,
        tags,
        source,
        user_id,
    };
    proof {
        assert forall|e: crate::episode::EpisodeView| #![trigger episode_at(s@, j as int, e)]
            episode_at(s@, j as int, e) implies ep@ == e && j21 == j + enc_episode(e).len() by {
            lemma_episode_fields(s@, j as int, e);
        }
    }
    Some((ep, j21))
}

/// Comma-separated episode list items.
pub open spec fn enc_episode_items(v: Seq<crate::episode::EpisodeView>) -> Seq<char>
    decreases v.len(),
{
    if v.len() == 0 {
        Seq::empty()
    } else if v.len() == 1 {
        enc_episode(v[0])
    } else {
        enc_episode(v[0]) + seq![','] + enc_episode_items(v.drop_first())
    }
}

/// The whole-store save document: the dimensionality and every episode.
pub open spec fn enc_db(dim: nat, v: Seq<crate::episode::EpisodeView>) -> Seq<char> {
    "{\"dim\":"@ + enc_nat(dim) + ",\"episodes\":["@ + enc_episode_items(v) + "]}"@
}

/// The checkpoint document: a snapshot of every episode in key order.
pub open spec fn enc_checkpoint(v: Seq<crate::episode::EpisodeView>) -> Seq<char> {
    "{\"episodes\":["@ + enc_episode_items(v) + "]}"@
}

/// Append episode list items from `idx` on.
fn push_episode_items(out: &mut Vec<char>, v: &Vec<crate::episode::Episode>, idx: usize)
    requires
        idx <= v@.len(),
    ensures
        final(out)@ == old(out)@ + enc_episode_items(v.deep_view().skip(idx as int)),
    decreases v@.len() - idx,
{
    if idx >= v.len() {
        proof {
            assert(enc_episode_items(v.deep_view().skip(idx as int)) =~= Seq::<char>::empty());
            assert(out@ =~= old(out)@ + enc_episode_items(v.deep_view().skip(idx as int)));
        }
        return ;
    }
    let line = encode_episode(&v[idx]);
    let mut k: usize = 0;
    let n = line.len();
    while k < n
        invariant
            k <= n,
            n == line@.len(),
            out@ == old(out)@ + enc_episode_items(v.deep_view().skip(idx as int)).take(0) + line@.take(k as int),
        decreases n - k,
    {
        out.push(line[k]);
        proof {
            assert(out@ =~= old(out)@ + enc_episode_items(v.deep_view().skip(idx as int)).take(0)
                + line@.take(k + 1));
        }
        k = k + 1;
    }
    proof {
        assert(v.deep_view().skip(idx as int)[0] == v.deep_view()[idx as int]);
        assert(v.deep_view()[idx as int] == v@[idx as int]@);
        assert(line@.take(n as int) =~= line@);
        assert(out@ =~= old(out)@ + enc_episode(v.deep_view().skip(idx as int)[0]));
    }
    if idx + 1 < v.len() {
        out.push(',');
        push_episode_items(out, v, idx + 1);
        proof {
            assert(v.deep_view().skip(idx as int).drop_first() =~= v.deep_view().skip(
                idx as int + 1,
            ));
            assert(out@ =~= old(out)@ + enc_episode_items(v.deep_view().skip(idx as int)));
        }
    } else {
        proof {
            assert(v.deep_view().skip(idx as int).len() == 1);
            assert(out@ =~= old(out)@ + enc_episode_items(v.deep_view().skip(idx as int)));
        }
    }
}

/// Encode the whole-store save document.
pub fn encode_db(dim: usize, v: &Vec<crate::episode::Episode>) -> (out: Vec<char>)
    ensures
        out@ == enc_db(dim as nat, v.deep_view()),
{
    let mut out: Vec<char> = Vec::new();
    push_lit(&mut out, "{\"dim\":");
    push_u64(&mut out, dim as u64);
    push_lit(&mut out, ",\"episodes\":[");
    push_episode_items(&mut out, v, 0);
    push_lit(&mut out, "]}");
    proof {
        assert(v.deep_view().skip(0) =~= v.deep_view());
        assert(out@ =~= enc_db(dim as nat, v.deep_view()));
    }
    out
}

/// Encode the checkpoint document.
pub fn encode_checkpoint(v: &Vec<crate::episode::Episode>) -> (out: Vec<char>)
    ensures
        out@ == enc_checkpoint(v.deep_view()),
{
    let mut out: Vec<char> = Vec::new();
    push_lit(&mut out, "{\"episodes\":[");
    push_episode_items(&mut out, v, 0);
    push_lit(&mut out, "]}");
    proof {
        assert(v.deep_view().skip(0) =~= v.deep_view());
        assert(out@ =~= enc_checkpoint(v.deep_view()));
    }
    out
}

/// An episode's text opens with a brace.
proof fn lemma_episode_head(e: crate::episode::EpisodeView)
    ensures
        enc_episode(e).len() >= 1,
        enc_episode(e)[0] == '{',
{
    reveal_strlit("{\"id\":\"");
    assert(enc_episode(e)[0] == "{\"id\":\""@[0]);
}

/// Episode list items sit at position `j`, closed by a bracket.
pub open spec fn episode_items_at(s: Seq<char>, j: int, v: Seq<crate::episode::EpisodeView>) -> bool {
    lit_at(s, j, enc_episode_items(v)) && j + enc_episode_items(v).len() < s.len() && s[j
        + enc_episode_items(v).len() as int] == ']'
}

/// Parse episode list items at position `j`, stopping before the closing
/// bracket.
#[verifier::rlimit(100)]
#[verifier::spinoff_prover]
fn parse_episode_items(s: &Vec<char>, j: usize, out: &mut Vec<crate::episode::Episode>) -> (r:
    Option<usize>)
    requires
        j <= s@.len(),
    ensures
        r matches Some(j2) ==> j <= j2 <= s@.len(),
        forall|v: Seq<crate::episode::EpisodeView>|
            #![trigger episode_items_at(s@, j as int, v)]
            episode_items_at(s@, j as int, v) ==> (r matches Some(j2) && final(out).deep_view()
                == old(out).deep_view() + v && j2 == j + enc_episode_items(v).len()),
    decreases s@.len() - j,
{
    if j < s.len() && s[j] == ']' {
        proof {
            assert forall|v: Seq<crate::episode::EpisodeView>| episode_items_at(
                s@,
                j as int,
                v,
            ) implies v.len() == 0 by {
                if v.len() > 0 {
                    lemma_episode_head(v[0]);
                    assert(s@.subrange(j as int, j + enc_episode_items(v).len() as int)[0]
                        == enc_episode_items(v)[0]);
                    assert(enc_episode_items(v)[0] == enc_episode(v[0])[0]);
                }
            }
            assert(out.deep_view() =~= out.deep_view()
                + Seq::<crate::episode::EpisodeView>::empty());
        }
        return Some(j);
    }
    let ghost pre = out.deep_view();
    proof {
        assert forall|v: Seq<crate::episode::EpisodeView>| episode_items_at(
            s@,
            j as int,
            v,
        ) implies v.len() > 0 && episode_at(s@, j as int, v[0]) by {
            if v.len() == 0 {
                assert(s@[j as int] == ']');
            }
            let e0 = enc_episode(v[0]);
            if v.len() > 1 {
                assert(enc_episode_items(v) == e0 + seq![','] + enc_episode_items(v.drop_first()));
            }
            assert(s@.subrange(j as int, j + e0.len() as int) =~= e0) by {
                assert forall|q: int| 0 <= q < e0.len() implies s@[j + q] == e0[q] by {
                    assert(s@.subrange(j as int, j + enc_episode_items(v).len() as int)[q]
                        == enc_episode_items(v)[q]);
                }
            }
        }
        assert(s.len() == s@.len());
    }
    let parsed = parse_episode_at(s, j);
    match parsed {
        None => {
            proof {
                assert forall|v: Seq<crate::episode::EpisodeView>| !episode_items_at(
                    s@,
                    j as int,
                    v,
                ) by {
                    if episode_items_at(s@, j as int, v) {
                        assert(episode_at(s@, j as int, v[0]));
                    }
                }
            }
            None
        },
        Some((x, j2)) => {
            out.push(x);
            proof {
                assert(out.deep_view() =~= pre.push(out@.last()@));
            }
            if j2 < s.len() {
                let c = s[j2];
                if c == ',' {
                    proof {
                        assert forall|v: Seq<crate::episode::EpisodeView>| episode_items_at(
                            s@,
                            j as int,
                            v,
                        ) implies v.len() > 1 && episode_items_at(s@, j2 + 1, v.drop_first()) by {
                            let e0 = enc_episode(v[0]);
                            if v.len() == 1 {
                                assert(s@[j + e0.len()] == ']');
                            }
                            assert(enc_episode_items(v) == e0 + seq![','] + enc_episode_items(
                                v.drop_first(),
                            ));
                            assert(s@.subrange(
                                j2 + 1,
                                j2 + 1 + enc_episode_items(v.drop_first()).len() as int,
                            ) =~= enc_episode_items(v.drop_first())) by {
                                assert forall|q: int|
                                    0 <= q < enc_episode_items(v.drop_first()).len() implies s@[j2
                                    + 1 + q] == enc_episode_items(v.drop_first())[q] by {
                                    assert(s@.subrange(
                                        j as int,
                                        j + enc_episode_items(v).len() as int,
                                    )[e0.len() + 1 + q] == enc_episode_items(v)[e0.len() + 1 + q]);
                                }
                            }
                        }
                    }
                    let r2 = parse_episode_items(s, j2 + 1, out);
                    proof {
                        assert forall|v: Seq<crate::episode::EpisodeView>| episode_items_at(
                            s@,
                            j as int,
                            v,
                        ) implies (r2 matches Some(j3) && out.deep_view() == pre + v && j3 == j
                            + enc_episode_items(v).len()) by {
                            assert(pre.push(v[0]) + v.drop_first() =~= pre + v);
                        }
                    }
                    r2
                } else {
                    proof {
                        assert forall|v: Seq<crate::episode::EpisodeView>| episode_items_at(
                            s@,
                            j as int,
                            v,
                        ) implies (out.deep_view() == pre + v && j2 == j + enc_episode_items(
                            v,
                        ).len()) by {
                            if v.len() > 1 {
                                let e0 = enc_episode(v[0]);
                                assert(enc_episode_items(v) == e0 + seq![','] + enc_episode_items(
                                    v.drop_first(),
                                ));
                                assert(s@.subrange(
                                    j as int,
                                    j + enc_episode_items(v).len() as int,
                                )[e0.len() as int] == enc_episode_items(v)[e0.len() as int]);
                                assert(s@[j2 as int] == ',');
                            }
                            assert(pre.push(v[0]) =~= pre + v);
                        }
                    }
                    Some(j2)
                }
            } else {
                proof {
                    assert forall|v: Seq<crate::episode::EpisodeView>| !episode_items_at(
                        s@,
                        j as int,
                        v,
                    ) by {
                        if episode_items_at(s@, j as int, v) {
                            assert(j + enc_episode_items(v).len() < s@.len());
                            if v.len() > 1 {
                                let e0 = enc_episode(v[0]);
                                assert(enc_episode_items(v) == e0 + seq![','] + enc_episode_items(
                                    v.drop_first(),
                                ));
                                assert(enc_episode_items(v).len() >= e0.len() + 1);
                            }
                        }
                    }
                }
                Some(j2)
            }
        },
    }
}

/// The save document splits into its pieces.
proof fn lemma_db_fields(s: Seq<char>, dim: nat, v: Seq<crate::episode::EpisodeView>)
    requires
        s == enc_db(dim, v),
    ensures
        lit_at(s, 0, "{\"dim\":"@),
        num_at(s, "{\"dim\":"@.len() as int, dim),
        lit_at(s, "{\"dim\":"@.len() as int + enc_nat(dim).len(), ",\"episodes\":["@),
        episode_items_at(
            s,
            "{\"dim\":"@.len() as int + enc_nat(dim).len() + ",\"episodes\":["@.len(),
            v,
        ),
        lit_at(
            s,
            "{\"dim\":"@.len() as int + enc_nat(dim).len() + ",\"episodes\":["@.len()
                + enc_episode_items(v).len(),
            "]}"@,
        ),
        s.len() == "{\"dim\":"@.len() + enc_nat(dim).len() + ",\"episodes\":["@.len()
            + enc_episode_items(v).len() + "]}"@.len(),
{
    let l1 = "{\"dim\":"@;
    let n = enc_nat(dim);
    let l2 = ",\"episodes\":["@;
    let items = enc_episode_items(v);
    let l3 = "]}"@;
    assert(s == l1 + n + l2 + items + l3);
    assert(lit_at(s, 0, s)) by {
        assert(s.subrange(0, s.len() as int) =~= s);
    }
    lemma_lit_split(s, 0, l1 + n + l2 + items, l3);
    lemma_lit_split(s, 0, l1 + n + l2, items);
    lemma_lit_split(s, 0, l1 + n, l2);
    lemma_lit_split(s, 0, l1, n);
    reveal_strlit(",\"episodes\":[");
    reveal_strlit("]}");
    let p1 = l1.len() as int + n.len();
    assert(s.subrange(p1, p1 + l2.len() as int)[0] == l2[0]);
    assert(!is_digit(s[p1]));
    let p3 = l1.len() + n.len() + l2.len() + items.len();
    assert(s.subrange(p3 as int, p3 + l3.len() as int)[0] == l3[0]);
    assert(s[p3 as int] == ']');
}

/// Parse a whole-store save document. Reads back exactly what `encode_db`
/// wrote.
#[verifier::rlimit(100)]
#[verifier::spinoff_prover]
pub fn parse_db(s: &Vec<char>) -> (r: Option<(usize, Vec<crate::episode::Episode>)>)
    ensures
        forall|dim: usize, v: Seq<crate::episode::EpisodeView>| #![trigger enc_db(dim as nat, v)]
            s@ == enc_db(dim as nat, v) ==> (r matches Some((d, eps)) && d == dim
                && eps.deep_view() == v),
{
    proof {
        assert(s.len() == s@.len());
        assert forall|dim: usize, v: Seq<crate::episode::EpisodeView>|
            #![trigger enc_db(dim as nat, v)]
            s@ == enc_db(dim as nat, v) implies lit_at(s@, 0, "{\"dim\":"@) && num_at(
            s@,
            "{\"dim\":"@.len() as int,
            dim as nat,
        ) by {
            lemma_db_fields(s@, dim as nat, v);
            assert(num_at(s@, "{\"dim\":"@.len() as int, dim as u64 as nat));
        }
    }
    let j1 = match expect_lit(s, 0, "{\"dim\":") {
        Some(p) => p,
        None => {
            return None;
        },
    };
    let r1 = parse_u64(s, j1);
    proof {
        assert forall|dim: usize, v: Seq<crate::episode::EpisodeView>|
            #![trigger enc_db(dim as nat, v)]
            s@ == enc_db(dim as nat, v) implies (r1 matches Some(p1) && p1.0 == dim && p1.1 == j1
            + enc_nat(dim as nat).len()) by {
            lemma_db_fields(s@, dim as nat, v);
            assert(num_at(s@, j1 as int, dim as u64 as nat));
            assert(dim as u64 as nat == dim as nat);
            assert(enc_nat(dim as u64 as nat) == enc_nat(dim as nat));
        }
    }
    let (dim64, j2) = match r1 {
        Some(p) => p,
        None => {
            return None;
        },
    };
    if dim64 > usize::MAX as u64 {
        return None;
    }
    let j3 = match expect_lit(s, j2, ",\"episodes\":[") {
        Some(p) => p,
        None => {
            proof {
                assert forall|dim: usize, v: Seq<crate::episode::EpisodeView>|
                    #![trigger enc_db(dim as nat, v)]
                    s@ != enc_db(dim as nat, v) by {
                    if s@ == enc_db(dim as nat, v) {
                        lemma_db_fields(s@, dim as nat, v);
                    }
                }
            }
            return None;
        },
    };
    let mut eps: Vec<crate::episode::Episode> = Vec::new();
    proof {
        assert forall|dim: usize, v: Seq<crate::episode::EpisodeView>|
            #![trigger enc_db(dim as nat, v)]
            s@ == enc_db(dim as nat, v) implies episode_items_at(s@, j3 as int, v) by {
            lemma_db_fields(s@, dim as nat, v);
        }
    }
    let r2 = parse_episode_items(s, j3, &mut eps);
    let j4 = match r2 {
        Some(p) => p,
        None => {
            return None;
        },
    };
    let j5 = match expect_lit(s, j4, "]}") {
        Some(p) => p,
        None => {
            proof {
                assert forall|dim: usize, v: Seq<crate::episode::EpisodeView>|
                    #![trigger enc_db(dim as nat, v)]
                    s@ != enc_db(dim as nat, v) by {
                    if s@ == enc_db(dim as nat, v) {
                        lemma_db_fields(s@, dim as nat, v);
                    }
                }
            }
            return None;
        },
    };
    if j5 != s.len() {
        proof {
            assert forall|dim: usize, v: Seq<crate::episode::EpisodeView>|
                #![trigger enc_db(dim as nat, v)]
                s@ != enc_db(dim as nat, v) by {
                if s@ == enc_db(dim as nat, v) {
                    lemma_db_fields(s@, dim as nat, v);
                }
            }
        }
        return None;
    }
    proof {
        assert forall|dim: usize, v: Seq<crate::episode::EpisodeView>|
            #![trigger enc_db(dim as nat, v)]
            s@ == enc_db(dim as nat, v) implies (dim64 == dim && eps.deep_view() == v) by {
            lemma_db_fields(s@, dim as nat, v);
        }
    }
    Some((dim64 as usize, eps))
}

/// The checkpoint document splits into its pieces.
proof fn lemma_checkpoint_fields(s: Seq<char>, v: Seq<crate::episode::EpisodeView>)
    requires
        s == enc_checkpoint(v),
    ensures
        lit_at(s, 0, "{\"episodes\":["@),
        episode_items_at(s, "{\"episodes\":["@.len() as int, v),
        lit_at(s, "{\"episodes\":["@.len() as int + enc_episode_items(v).len(), "]}"@),
        s.len() == "{\"episodes\":["@.len() + enc_episode_items(v).len() + "]}"@.len(),
{
    let l1 = "{\"episodes\":["@;
    let items = enc_episode_items(v);
    let l3 = "]}"@;
    assert(s == l1 + items + l3);
    assert(lit_at(s, 0, s)) by {
        assert(s.subrange(0, s.len() as int) =~= s);
    }
    lemma_lit_split(s, 0, l1 + items, l3);
    lemma_lit_split(s, 0, l1, items);
    reveal_strlit("]}");
    let p3 = l1.len() + items.len();
    assert(s.subrange(p3 as int, p3 + l3.len() as int)[0] == l3[0]);
    assert(s[p3 as int] == ']');
}

/// Parse a checkpoint document. Reads back exactly what
/// `encode_checkpoint` wrote.
#[verifier::rlimit(100)]
#[verifier::spinoff_prover]
pub fn parse_checkpoint(s: &Vec<char>) -> (r: Option<Vec<crate::episode::Episode>>)
    ensures
        forall|v: Seq<crate::episode::EpisodeView>| #![trigger enc_checkpoint(v)]
            s@ == enc_checkpoint(v) ==> (r matches Some(eps) && eps.deep_view() == v),
{
    proof {
        assert(s.len() == s@.len());
        assert forall|v: Seq<crate::episode::EpisodeView>| #![trigger enc_checkpoint(v)]
            s@ == enc_checkpoint(v) implies lit_at(s@, 0, "{\"episodes\":["@) by {
            lemma_checkpoint_fields(s@, v);
        }
    }
    let j1 = match expect_lit(s, 0, "{\"episodes\":[") {
        Some(p) => p,
        None => {
            return None;
        },
    };
    let mut eps: Vec<crate::episode::Episode> = Vec::new();
    proof {
        assert forall|v: Seq<crate::episode::EpisodeView>| #![trigger enc_checkpoint(v)]
            s@ == enc_checkpoint(v) implies episode_items_at(s@, j1 as int, v) by {
            lemma_checkpoint_fields(s@, v);
        }
    }
    let r2 = parse_episode_items(s, j1, &mut eps);
    let j2 = match r2 {
        Some(p) => p,
        None => {
            return None;
        },
    };
    let j3 = match expect_lit(s, j2, "]}") {
        Some(p) => p,
        None => {
            proof {
                assert forall|v: Seq<crate::episode::EpisodeView>| #![trigger enc_checkpoint(v)]
                    s@ != enc_checkpoint(v) by {
                    if s@ == enc_checkpoint(v) {
                        lemma_checkpoint_fields(s@, v);
                    }
                }
            }
            return None;
        },
    };
    if j3 != s.len() {
        proof {
            assert forall|v: Seq<crate::episode::EpisodeView>| #![trigger enc_checkpoint(v)]
                s@ != enc_checkpoint(v) by {
                if s@ == enc_checkpoint(v) {
                    lemma_checkpoint_fields(s@, v);
                }
            }
        }
        return None;
    }
    proof {
        assert forall|v: Seq<crate::episode::EpisodeView>| #![trigger enc_checkpoint(v)]
            s@ == enc_checkpoint(v) implies eps.deep_view() == v by {
            lemma_checkpoint_fields(s@, v);
        }
    }
    Some(eps)
}

/// The metadata document: dimensionality, backend kind, capacity, and
/// the log line count of the last checkpoint, if one was taken.
pub open spec fn enc_meta(dim: nat, exact: bool, max_elements: nat, clc: Option<nat>) -> Seq<
    char,
> {
    "{\"dim\":"@ + enc_nat(dim) + ",\"index_type\":"@ + (if exact {
        "\"exact\""@
    } else {
        "\"hnsw\""@
    }) + ",\"max_elements\":"@ + enc_nat(max_elements) + ",\"checkpoint_line_count\":"@ + (
    match clc {
        None => null_txt(),
        Some(c) => enc_nat(c),
    }) + "}"@
}

/// Encode the metadata document.
pub fn encode_meta(dim: usize, exact: bool, max_elements: usize, clc: &Option<usize>) -> (out: Vec<
    char,
>)
    ensures
        out@ == enc_meta(
            dim as nat,
            exact,
            max_elements as nat,
            match *clc {
                None => None,
                Some(c) => Some(c as nat),
            },
        ),
{
    let mut out: Vec<char> = Vec::new();
    push_lit(&mut out, "{\"dim\":");
    push_u64(&mut out, dim as u64);
    push_lit(&mut out, ",\"index_type\":");
    if exact {
        push_lit(&mut out, "\"exact\"");
    } else {
        push_lit(&mut out, "\"hnsw\"");
    }
    push_lit(&mut out, ",\"max_elements\":");
    push_u64(&mut out, max_elements as u64);
    push_lit(&mut out, ",\"checkpoint_line_count\":");
    match clc {
        None => push_null(&mut out),
        Some(c) => push_u64(&mut out, *c as u64),
    }
    push_lit(&mut out, "}");
    proof {
        assert(out@ =~= enc_meta(
            dim as nat,
            exact,
            max_elements as nat,
            match *clc {
                None => None,
                Some(c) => Some(c as nat),
            },
        ));
    }
    out
}

/// The metadata document splits into its pieces.
proof fn lemma_meta_fields(s: Seq<char>, dim: nat, exact: bool, max_elements: nat, clc: Option<nat>)
    requires
        s == enc_meta(dim, exact, max_elements, clc),
    ensures
        lit_at(s, 0, "{\"dim\":"@),
        num_at(s, "{\"dim\":"@.len() as int, dim),
        lit_at(s, "{\"dim\":"@.len() as int + enc_nat(dim).len(), ",\"index_type\":"@),
        lit_at(
            s,
            "{\"dim\":"@.len() as int + enc_nat(dim).len() + ",\"index_type\":"@.len(),
            if exact {
                "\"exact\""@
            } else {
                "\"hnsw\""@
            },
        ),
        lit_at(
            s,
            "{\"dim\":"@.len() as int + enc_nat(dim).len() + ",\"index_type\":"@.len() + (
            if exact {
                "\"exact\""@.len() as int
            } else {
                "\"hnsw\""@.len() as int
            }),
            ",\"max_elements\":"@,
        ),
        num_at(
            s,
            "{\"dim\":"@.len() as int + enc_nat(dim).len() + ",\"index_type\":"@.len() + (
            if exact {
                "\"exact\""@.len() as int
            } else {
                "\"hnsw\""@.len() as int
            }) + ",\"max_elements\":"@.len(),
            max_elements,
        ),
        lit_at(
            s,
            "{\"dim\":"@.len() as int + enc_nat(dim).len() + ",\"index_type\":"@.len() + (
            if exact {
                "\"exact\""@.len() as int
            } else {
                "\"hnsw\""@.len() as int
            }) + ",\"max_elements\":"@.len() + enc_nat(max_elements).len(),
            ",\"checkpoint_line_count\":"@,
        ),
        opt_i64_like_at(
            s,
            "{\"dim\":"@.len() as int + enc_nat(dim).len() + ",\"index_type\":"@.len() + (
            if exact {
                "\"exact\""@.len() as int
            } else {
                "\"hnsw\""@.len() as int
            }) + ",\"max_elements\":"@.len() + enc_nat(max_elements).len()
                + ",\"checkpoint_line_count\":"@.len(),
            clc,
        ),
        lit_at(
            s,
            "{\"dim\":"@.len() as int + enc_nat(dim).len() + ",\"index_type\":"@.len() + (
            if exact {
                "\"exact\""@.len() as int
            } else {
                "\"hnsw\""@.len() as int
            }) + ",\"max_elements\":"@.len() + enc_nat(max_elements).len()
                + ",\"checkpoint_line_count\":"@.len() + (match clc {
                None => null_txt().len() as int,
                Some(c) => enc_nat(c).len() as int,
            }),
            "}"@,
        ),
        s.len() == enc_meta(dim, exact, max_elements, clc).len(),
        enc_meta(dim, exact, max_elements, clc).len() == "{\"dim\":"@.len() as int + enc_nat(
            dim,
        ).len() + ",\"index_type\":"@.len() + (if exact {
            "\"exact\""@.len() as int
        } else {
            "\"hnsw\""@.len() as int
        }) + ",\"max_elements\":"@.len() + enc_nat(max_elements).len()
            + ",\"checkpoint_line_count\":"@.len() + (match clc {
            None => null_txt().len() as int,
            Some(c) => enc_nat(c).len() as int,
        }) + 1,
{
    let l1 = "{\"dim\":"@;
    let n1 = enc_nat(dim);
    let l2 = ",\"index_type\":"@;
    let kind = if exact {
        "\"exact\""@
    } else {
        "\"hnsw\""@
    };
    let l3 = ",\"max_elements\":"@;
    let n2 = enc_nat(max_elements);
    let l4 = ",\"checkpoint_line_count\":"@;
    let pc = match clc {
        None => null_txt(),
        Some(c) => enc_nat(c),
    };
    let l5 = "}"@;
    assert(s == l1 + n1 + l2 + kind + l3 + n2 + l4 + pc + l5);
    assert(lit_at(s, 0, s)) by {
        assert(s.subrange(0, s.len() as int) =~= s);
    }
    lemma_lit_split(s, 0, l1 + n1 + l2 + kind + l3 + n2 + l4 + pc, l5);
    lemma_lit_split(s, 0, l1 + n1 + l2 + kind + l3 + n2 + l4, pc);
    lemma_lit_split(s, 0, l1 + n1 + l2 + kind + l3 + n2, l4);
    lemma_lit_split(s, 0, l1 + n1 + l2 + kind + l3, n2);
    lemma_lit_split(s, 0, l1 + n1 + l2 + kind, l3);
    lemma_lit_split(s, 0, l1 + n1 + l2, kind);
    lemma_lit_split(s, 0, l1 + n1, l2);
    lemma_lit_split(s, 0, l1, n1);
    reveal_strlit(",\"index_type\":");
    reveal_strlit(",\"checkpoint_line_count\":");
    reveal_strlit("}");
    let p1 = l1.len() as int + n1.len();
    assert(s.subrange(p1, p1 + l2.len() as int)[0] == l2[0]);
    assert(!is_digit(s[p1]));
    let p2 = p1 + l2.len() + kind.len() + l3.len() + n2.len();
    assert(s.subrange(p2, p2 + l4.len() as int)[0] == l4[0]);
    assert(!is_digit(s[p2]));
    let p3 = p2 + l4.len() + pc.len();
    assert(s.subrange(p3, p3 + l5.len() as int)[0] == l5[0]);
    assert(!is_digit(s[p3]));
}

/// A `null` or a number sits at position `i`, bounded on the right by
/// the end of the text or a non-digit.
pub open spec fn opt_i64_like_at(s: Seq<char>, i: int, t: Option<nat>) -> bool {
    let piece = match t {
        None => null_txt(),
        Some(c) => enc_nat(c),
    };
    lit_at(s, i, piece) && (i + piece.len() == s.len() || !is_digit(s[i + piece.len() as int]))
}

/// Parse a `null` or a number at position `i`.
fn parse_opt_u64(s: &Vec<char>, i: usize) -> (r: Option<(Option<u64>, usize)>)
    requires
        i <= s@.len(),
    ensures
        r matches Some((_, j)) ==> i <= j <= s@.len(),
        forall|t: Option<u64>| #![trigger opt_u64_of(t)]
            opt_i64_like_at(s@, i as int, opt_u64_of(t)) ==> (r matches Some((o, j)) && o == t && j
                == i + (match t {
                None => null_txt().len() as int,
                Some(c) => enc_nat(c as nat).len() as int,
            })),
{
    proof {
        reveal_strlit("null");
    }
    match expect_lit(s, i, "null") {
        Some(j) => {
            proof {
                reveal_strlit("null");
                assert forall|t: Option<u64>| #![trigger opt_u64_of(t)]
                    opt_i64_like_at(s@, i as int, opt_u64_of(t)) implies t is None && j == i
                    + null_txt().len() by {
                    if t is Some {
                        let c = t->Some_0;
                        lemma_enc_nat_ok(c as nat);
                        assert(s@.subrange(i as int, i + enc_nat(c as nat).len() as int)[0]
                            == enc_nat(c as nat)[0]);
                        assert(s@.subrange(i as int, i + "null"@.len() as int)[0] == "null"@[0]);
                    }
                    assert(null_txt() =~= "null"@);
                }
            }
            Some((None, j))
        },
        None => {
            match parse_u64(s, i) {
                Some((x, j)) => {
                    proof {
                        reveal_strlit("null");
                        assert forall|t: Option<u64>| #![trigger opt_u64_of(t)]
                            opt_i64_like_at(s@, i as int, opt_u64_of(t)) implies (t is Some && x
                            == t->Some_0 && j == i + enc_nat(t->Some_0 as nat).len()) by {
                            if t is None {
                                assert(lit_at(s@, i as int, "null"@)) by {
                                    assert(null_txt() =~= "null"@);
                                }
                            }
                            let c = t->Some_0;
                            assert(num_at(s@, i as int, c as nat));
                            assert(s.len() == s@.len());
                        }
                    }
                    Some((Some(x), j))
                },
                None => {
                    proof {
                        reveal_strlit("null");
                        assert forall|t: Option<u64>| #![trigger opt_u64_of(t)]
                            !opt_i64_like_at(s@, i as int, opt_u64_of(t)) by {
                            if opt_i64_like_at(s@, i as int, opt_u64_of(t)) {
                                if t is None {
                                    assert(lit_at(s@, i as int, "null"@)) by {
                                        assert(null_txt() =~= "null"@);
                                    }
                                } else {
                                    let c = t->Some_0;
                                    assert(num_at(s@, i as int, c as nat));
                                }
                            }
                        }
                    }
                    None
                },
            }
        },
    }
}

/// The `nat` image of an optional machine word.
pub open spec fn opt_u64_of(t: Option<u64>) -> Option<nat> {
    match t {
        None => None,
        Some(c) => Some(c as nat),
    }
}

/// Parse a metadata document. Reads back exactly what `encode_meta`
/// wrote.
#[verifier::rlimit(100)]
#[verifier::spinoff_prover]
pub fn parse_meta(s: &Vec<char>) -> (r: Option<(usize, bool, usize, Option<usize>)>)
    ensures
        forall|dim: usize, exact: bool, max_elements: usize, clc: Option<usize>|
            #![trigger enc_meta(dim as nat, exact, max_elements as nat, opt_usize_of(clc))]
            s@ == enc_meta(dim as nat, exact, max_elements as nat, opt_usize_of(clc)) ==> (
            r matches Some(m) && m.0 == dim && m.1 == exact && m.2 == max_elements && m.3 == clc),
{
    proof {
        assert(s.len() == s@.len());
        assert forall|dim: usize, exact: bool, max_elements: usize, clc: Option<usize>|
            #![trigger enc_meta(dim as nat, exact, max_elements as nat, opt_usize_of(clc))]
            s@ == enc_meta(dim as nat, exact, max_elements as nat, opt_usize_of(clc)) implies
            lit_at(s@, 0, "{\"dim\":"@) && num_at(s@, "{\"dim\":"@.len() as int, dim as nat) by {
            lemma_meta_fields(s@, dim as nat, exact, max_elements as nat, opt_usize_of(clc));
        }
    }
    let j1 = match expect_lit(s, 0, "{\"dim\":") {
        Some(p) => p,
        None => {
            return None;
        },
    };
    let r1 = parse_u64(s, j1);
    proof {
        assert forall|dim: usize, exact: bool, max_elements: usize, clc: Option<usize>|
            #![trigger enc_meta(dim as nat, exact, max_elements as nat, opt_usize_of(clc))]
            s@ == enc_meta(dim as nat, exact, max_elements as nat, opt_usize_of(clc)) implies (
        r1 matches Some(p1) && p1.0 == dim && p1.1 == j1 + enc_nat(dim as nat).len()) by {
            lemma_meta_fields(s@, dim as nat, exact, max_elements as nat, opt_usize_of(clc));
            assert(num_at(s@, j1 as int, dim as u64 as nat));
            assert(dim as u64 as nat == dim as nat);
            assert(enc_nat(dim as u64 as nat) == enc_nat(dim as nat));
        }
    }
    let (dim64, j2) = match r1 {
        Some(p) => p,
        None => {
            return None;
        },
    };
    if dim64 > usize::MAX as u64 {
        return None;
    }
    let j3 = match expect_lit(s, j2, ",\"index_type\":") {
        Some(p) => p,
        None => {
            proof {
                assert forall|dim: usize, exact: bool, max_elements: usize, clc: Option<usize>|
                    #![trigger enc_meta(dim as nat, exact, max_elements as nat, opt_usize_of(clc))]
                    s@ != enc_meta(dim as nat, exact, max_elements as nat, opt_usize_of(clc)) by {
                    if s@ == enc_meta(dim as nat, exact, max_elements as nat, opt_usize_of(clc)) {
                        lemma_meta_fields(
                            s@,
                            dim as nat,
                            exact,
                            max_elements as nat,
                            opt_usize_of(clc),
                        );
                    }
                }
            }
            return None;
        },
    };
    let (is_exact, j4) = match expect_lit(s, j3, "\"exact\"") {
        Some(p) => (true, p),
        None => {
            match expect_lit(s, j3, "\"hnsw\"") {
                Some(p) => (false, p),
                None => {
                    proof {
                        reveal_strlit("\"exact\"");
                        reveal_strlit("\"hnsw\"");
                        assert forall|
                            dim: usize,
                            exact: bool,
                            max_elements: usize,
                            clc: Option<usize>,
                        |
                            #![trigger enc_meta(dim as nat, exact, max_elements as nat, opt_usize_of(clc))]
                            s@ != enc_meta(
                                dim as nat,
                                exact,
                                max_elements as nat,
                                opt_usize_of(clc),
                            ) by {
                            if s@ == enc_meta(
                                dim as nat,
                                exact,
                                max_elements as nat,
                                opt_usize_of(clc),
                            ) {
                                lemma_meta_fields(
                                    s@,
                                    dim as nat,
                                    exact,
                                    max_elements as nat,
                                    opt_usize_of(clc),
                                );
                            }
                        }
                    }
                    return None;
                },
            }
        },
    };
    proof {
        reveal_strlit("\"exact\"");
        reveal_strlit("\"hnsw\"");
        assert forall|dim: usize, exact: bool, max_elements: usize, clc: Option<usize>|
            #![trigger enc_meta(dim as nat, exact, max_elements as nat, opt_usize_of(clc))]
            s@ == enc_meta(dim as nat, exact, max_elements as nat, opt_usize_of(clc)) implies (
        is_exact == exact && j4 == j3 + (if exact {
            "\"exact\""@.len() as int
        } else {
            "\"hnsw\""@.len() as int
        })) by {
            lemma_meta_fields(s@, dim as nat, exact, max_elements as nat, opt_usize_of(clc));
            if exact {
                assert(lit_at(s@, j3 as int, "\"exact\""@));
            } else {
                assert(lit_at(s@, j3 as int, "\"hnsw\""@));
                if is_exact {
                    assert(s@.subrange(j3 as int, j3 + "\"hnsw\""@.len() as int)[1]
                        == "\"hnsw\""@[1]);
                    assert(s@.subrange(j3 as int, j3 + "\"exact\""@.len() as int)[1]
                        == "\"exact\""@[1]);
                }
            }
        }
    }
    let j5 = match expect_lit(s, j4, ",\"max_elements\":") {
        Some(p) => p,
        None => {
            proof {
                assert forall|dim: usize, exact: bool, max_elements: usize, clc: Option<usize>|
                    #![trigger enc_meta(dim as nat, exact, max_elements as nat, opt_usize_of(clc))]
                    s@ != enc_meta(dim as nat, exact, max_elements as nat, opt_usize_of(clc)) by {
                    if s@ == enc_meta(dim as nat, exact, max_elements as nat, opt_usize_of(clc)) {
                        lemma_meta_fields(
                            s@,
                            dim as nat,
                            exact,
                            max_elements as nat,
                            opt_usize_of(clc),
                        );
                    }
                }
            }
            return None;
        },
    };
    let r2 = parse_u64(s, j5);
    proof {
        assert forall|dim: usize, exact: bool, max_elements: usize, clc: Option<usize>|
            #![trigger enc_meta(dim as nat, exact, max_elements as nat, opt_usize_of(clc))]
            s@ == enc_meta(dim as nat, exact, max_elements as nat, opt_usize_of(clc)) implies (
        r2 matches Some(p2) && p2.0 == max_elements && p2.1 == j5 + enc_nat(
            max_elements as nat,
        ).len()) by {
            lemma_meta_fields(s@, dim as nat, exact, max_elements as nat, opt_usize_of(clc));
            assert(num_at(s@, j5 as int, max_elements as u64 as nat));
            assert(max_elements as u64 as nat == max_elements as nat);
            assert(enc_nat(max_elements as u64 as nat) == enc_nat(max_elements as nat));
        }
    }
    let (max64, j6) = match r2 {
        Some(p) => p,
        None => {
            return None;
        },
    };
    if max64 > usize::MAX as u64 {
        return None;
    }
    let j7 = match expect_lit(s, j6, ",\"checkpoint_line_count\":") {
        Some(p) => p,
        None => {
            proof {
                assert forall|dim: usize, exact: bool, max_elements: usize, clc: Option<usize>|
                    #![trigger enc_meta(dim as nat, exact, max_elements as nat, opt_usize_of(clc))]
                    s@ != enc_meta(dim as nat, exact, max_elements as nat, opt_usize_of(clc)) by {
                    if s@ == enc_meta(dim as nat, exact, max_elements as nat, opt_usize_of(clc)) {
                        lemma_meta_fields(
                            s@,
                            dim as nat,
                            exact,
                            max_elements as nat,
                            opt_usize_of(clc),
                        );
                    }
                }
            }
            return None;
        },
    };
    let r3 = parse_opt_u64(s, j7);
    proof {
        assert forall|dim: usize, exact: bool, max_elements: usize, clc: Option<usize>|
            #![trigger enc_meta(dim as nat, exact, max_elements as nat, opt_usize_of(clc))]
            s@ == enc_meta(dim as nat, exact, max_elements as nat, opt_usize_of(clc)) implies (
        r3 matches Some(p3) && opt_u64_of(p3.0) == opt_usize_of(clc) && p3.1 == j7 + (
        match clc {
            None => null_txt().len() as int,
            Some(c) => enc_nat(c as nat).len() as int,
        })) by {
            lemma_meta_fields(s@, dim as nat, exact, max_elements as nat, opt_usize_of(clc));
            let tu: Option<u64> = match clc {
                None => None,
                Some(c) => Some(c as u64),
            };
            assert(opt_u64_of(tu) =~= opt_usize_of(clc));
            assert(opt_i64_like_at(s@, j7 as int, opt_u64_of(tu)));
        }
    }
    let (clc64, j8) = match r3 {
        Some(p) => p,
        None => {
            return None;
        },
    };
    let clc_out: Option<usize> = match clc64 {
        None => None,
        Some(c) => {
            if c > usize::MAX as u64 {
                return None;
            }
            Some(c as usize)
        },
    };
    let j9 = match expect_lit(s, j8, "}") {
        Some(p) => p,
        None => {
            proof {
                assert forall|dim: usize, exact: bool, max_elements: usize, clc: Option<usize>|
                    #![trigger enc_meta(dim as nat, exact, max_elements as nat, opt_usize_of(clc))]
                    s@ != enc_meta(dim as nat, exact, max_elements as nat, opt_usize_of(clc)) by {
                    if s@ == enc_meta(dim as nat, exact, max_elements as nat, opt_usize_of(clc)) {
                        lemma_meta_fields(
                            s@,
                            dim as nat,
                            exact,
                            max_elements as nat,
                            opt_usize_of(clc),
                        );
                    }
                }
            }
            return None;
        },
    };
    if j9 != s.len() {
        proof {
            assert forall|dim: usize, exact: bool, max_elements: usize, clc: Option<usize>|
                #![trigger enc_meta(dim as nat, exact, max_elements as nat, opt_usize_of(clc))]
                s@ != enc_meta(dim as nat, exact, max_elements as nat, opt_usize_of(clc)) by {
                if s@ == enc_meta(dim as nat, exact, max_elements as nat, opt_usize_of(clc)) {
                    lemma_meta_fields(s@, dim as nat, exact, max_elements as nat, opt_usize_of(clc));
                }
            }
        }
        return None;
    }
    proof {
        assert forall|dim: usize, exact: bool, max_elements: usize, clc: Option<usize>|
            #![trigger enc_meta(dim as nat, exact, max_elements as nat, opt_usize_of(clc))]
            s@ == enc_meta(dim as nat, exact, max_elements as nat, opt_usize_of(clc)) implies (
        dim64 == dim && is_exact == exact && max64 == max_elements && clc_out == clc) by {
            lemma_meta_fields(s@, dim as nat, exact, max_elements as nat, opt_usize_of(clc));
        }
    }
    Some((dim64 as usize, is_exact, max64 as usize, clc_out))
}

/// Parse a metadata document from text. Reads back exactly what
/// `encode_meta` wrote.
pub fn meta_from_text(text: &str) -> (r: Option<(usize, bool, usize, Option<usize>)>)
    ensures
        forall|dim: usize, exact: bool, max_elements: usize, clc: Option<usize>|
            #![trigger enc_meta(dim as nat, exact, max_elements as nat, opt_usize_of(clc))]
            text@ == enc_meta(dim as nat, exact, max_elements as nat, opt_usize_of(clc)) ==> (
            r matches Some(m) && m.0 == dim && m.1 == exact && m.2 == max_elements && m.3 == clc),
{
    let chars = chars_of_str(text);
    parse_meta(&chars)
}

/// The `nat` image of an optional machine word.
pub open spec fn opt_usize_of(t: Option<usize>) -> Option<nat> {
    match t {
        None => None,
        Some(c) => Some(c as nat),
    }
}

/// Encode an episode as its canonical JSON line, as a string.
pub fn episode_to_line(ep: &crate::episode::Episode) -> (s: String)
    ensures
        s@ == enc_episode(ep@),
{
    let chars = encode_episode(ep);
    string_from_chars(&chars)
}

/// Parse a whole line as one episode. Reads back exactly what
/// `episode_to_line` wrote.
pub fn episode_from_line(line: &str) -> (r: Option<crate::episode::Episode>)
    ensures
        forall|e: crate::episode::EpisodeView| #![trigger enc_episode(e)]
            line@ == enc_episode(e) ==> (r matches Some(ep) && ep@ == e),
{
    let chars = chars_of_str(line);
    proof {
        assert forall|e: crate::episode::EpisodeView| #![trigger enc_episode(e)]
            line@ == enc_episode(e) implies episode_at(chars@, 0, e) by {
            assert(chars@.subrange(0, enc_episode(e).len() as int) =~= enc_episode(e));
        }
    }
    match parse_episode_at(&chars, 0) {
        Some((ep, j)) => {
            if j == chars.len() {
                Some(ep)
            } else {
                proof {
                    assert forall|e: crate::episode::EpisodeView| #![trigger enc_episode(e)]
                        line@ != enc_episode(e) by {
                        if line@ == enc_episode(e) {
                            assert(episode_at(chars@, 0, e));
                        }
                    }
                }
                None
            }
        },
        None => None,
    }
}

/// The characters of a string slice, as a vector.
pub fn chars_of_str(s: &str) -> (v: Vec<char>)
    ensures
        v@ == s@,
{
    let n = s.unicode_len();
    let mut v: Vec<char> = Vec::new();
    let mut i: usize = 0;
    while i < n
        invariant
            n == s@.len(),
            i <= n,
            v@ == s@.take(i as int),
        decreases n - i,
    {
        v.push(s.get_char(i));
        proof {
            assert(v@ =~= s@.take(i + 1));
        }
        i = i + 1;
    }
    proof {
        assert(s@.take(n as int) =~= s@);
    }
    v
}

} // verus!
