//! The record format: whitespace-delimited decimal text.
//!
//! A file holds unsigned 32-bit integers as decimal tokens separated by
//! whitespace, normally one per line.  This module gives the format its
//! mathematical meaning — which values a byte string holds, and which byte
//! string a run of values renders to — and the verified readers and
//! writers for it.  Tokens that do not parse as a 32-bit value are
//! silently skipped by the bulk reader, exactly as the loader contract
//! demands.

use vstd::prelude::*;

verus! {

/// ASCII whitespace: the token separators of the format.
pub open spec fn is_ws(b: u8) -> bool {
    b == 32 || b == 9 || b == 10 || b == 11 || b == 12 || b == 13
}

/// ASCII decimal digit.
pub open spec fn is_digit(b: u8) -> bool {
    48 <= b <= 57
}

pub open spec fn all_digits(d: Seq<u8>) -> bool {
    forall|i: int| 0 <= i < d.len() ==> is_digit(#[trigger] d[i])
}

/// Numeric value of a digit string, most significant digit first.
pub open spec fn digits_val(d: Seq<u8>) -> int
    decreases d.len(),
{
    if d.len() == 0 {
        0
    } else {
        digits_val(d.drop_last()) * 10 + (d.last() - 48)
    }
}

/// The value a token denotes, if any: an optional leading `+`, then one or
/// more digits, denoting a value that fits in 32 bits.
pub open spec fn parse_tok(t: Seq<u8>) -> Option<u32> {
    let d = if t.len() > 0 && t[0] == 43 {
        t.drop_first()
    } else {
        t
    };
    if d.len() > 0 && all_digits(d) && digits_val(d) <= u32::MAX {
        Some(digits_val(d) as u32)
    } else {
        None
    }
}

/// The values a finished token contributes: one if it parses, none if not.
pub open spec fn emit_tok(cur: Seq<u8>) -> Seq<u32> {
    match parse_tok(cur) {
        Some(v) => seq![v],
        None => Seq::<u32>::empty(),
    }
}

/// Scans the bytes left to right, accumulating the current token in `cur`
/// and emitting it at each whitespace boundary.
pub open spec fn values_go(s: Seq<u8>, cur: Seq<u8>) -> Seq<u32>
    decreases s.len(),
{
    if s.len() == 0 {
        emit_tok(cur)
    } else if is_ws(s[0]) {
        emit_tok(cur) + values_go(s.drop_first(), Seq::<u8>::empty())
    } else {
        values_go(s.drop_first(), cur.push(s[0]))
    }
}

/// The run of values a byte string holds: every successfully parsed
/// whitespace-delimited token, in order.
pub open spec fn values_of(s: Seq<u8>) -> Seq<u32> {
    values_go(s, Seq::<u8>::empty())
}

/// Decimal digits of `n`, most significant first, no sign and no leading
/// zero except for `0` itself.
pub open spec fn dec_digits(n: int) -> Seq<u8>
    decreases n,
{
    if n < 10 {
        seq![(48 + n) as u8]
    } else {
        dec_digits(n / 10).push((48 + n % 10) as u8)
    }
}

/// The byte string a run of values renders to: each value's decimal
/// digits, each record terminated by a newline.
pub open spec fn render_spec(vs: Seq<u32>) -> Seq<u8>
    decreases vs.len(),
{
    if vs.len() == 0 {
        Seq::<u8>::empty()
    } else {
        dec_digits(vs[0] as int) + seq![10u8] + render_spec(vs.drop_first())
    }
}

/// The decimal digits of a 32-bit value are digits, start a token, and
/// denote the value itself.
pub proof fn lemma_dec_digits_props(n: int)
    requires
        0 <= n,
    ensures
        dec_digits(n).len() >= 1,
        all_digits(dec_digits(n)),
        digits_val(dec_digits(n)) == n,
    decreases n,
{
    if n < 10 {
        assert((48 + n) as u8 == 48 + n);
        assert(dec_digits(n) =~= seq![(48 + n) as u8]);
        assert(dec_digits(n).drop_last() =~= Seq::<u8>::empty());
        assert(digits_val(dec_digits(n)) == digits_val(Seq::<u8>::empty()) * 10 + ((48 + n) as u8
            - 48));
    } else {
        vstd::arithmetic::div_mod::lemma_fundamental_div_mod(n, 10);
        vstd::arithmetic::div_mod::lemma_mod_bound(n, 10);
        assert(1 <= n / 10 < n) by {
            vstd::arithmetic::div_mod::lemma_fundamental_div_mod(n, 10);
        }
        lemma_dec_digits_props(n / 10);
        let d = dec_digits(n);
        assert(d == dec_digits(n / 10).push((48 + n % 10) as u8));
        assert(d.drop_last() =~= dec_digits(n / 10));
        assert(d.last() == (48 + n % 10) as u8);
        assert((48 + n % 10) as u8 == 48 + n % 10);
        assert(digits_val(d) == digits_val(dec_digits(n / 10)) * 10 + (d.last() - 48));
        assert(digits_val(d) == (n / 10) * 10 + n % 10);
        assert((n / 10) * 10 + n % 10 == n) by {
            vstd::arithmetic::div_mod::lemma_fundamental_div_mod(n, 10);
        }
        assert forall|i: int| 0 <= i < d.len() implies is_digit(#[trigger] d[i]) by {
            if i < d.len() - 1 {
                assert(d[i] == dec_digits(n / 10)[i]);
            }
        }
    }
}

/// A token made of the decimal digits of a 32-bit value parses back to it.
pub proof fn lemma_parse_dec_digits(v: u32)
    ensures
        parse_tok(dec_digits(v as int)) == Some(v),
{
    lemma_dec_digits_props(v as int);
    let t = dec_digits(v as int);
    assert(is_digit(t[0]));
    assert(t[0] != 43);
}

/// Scanning a stretch of non-whitespace bytes only lengthens the current
/// token.
proof fn lemma_values_go_extend(d: Seq<u8>, t: Seq<u8>, cur: Seq<u8>)
    requires
        forall|i: int| 0 <= i < d.len() ==> !is_ws(#[trigger] d[i]),
    ensures
        values_go(d + t, cur) == values_go(t, cur + d),
    decreases d.len(),
{
    if d.len() == 0 {
        assert(d + t =~= t);
        assert(cur + d =~= cur);
    } else {
        assert((d + t)[0] == d[0]);
        assert(!is_ws(d[0]));
        assert((d + t).drop_first() =~= d.drop_first() + t);
        lemma_values_go_extend(d.drop_first(), t, cur.push(d[0]));
        assert(cur.push(d[0]) + d.drop_first() =~= cur + d);
    }
}

/// Round trip: rendering a run of values and reading the bytes back gives
/// the same run.
pub proof fn lemma_render_roundtrip(vs: Seq<u32>)
    ensures
        values_of(render_spec(vs)) == vs,
{
    lemma_render_roundtrip_go(vs);
    if vs.len() == 0 {
        assert(values_of(render_spec(vs)) =~= vs);
    }
}

proof fn lemma_render_roundtrip_go(vs: Seq<u32>)
    ensures
        values_go(render_spec(vs), Seq::<u8>::empty()) == vs,
    decreases vs.len(),
{
    if vs.len() == 0 {
        assert(parse_tok(Seq::<u8>::empty()) is None);
        assert(values_go(render_spec(vs), Seq::<u8>::empty()) =~= vs);
    } else {
        let v = vs[0];
        let d = dec_digits(v as int);
        let rest = render_spec(vs.drop_first());
        lemma_dec_digits_props(v as int);
        assert(render_spec(vs) =~= d + (seq![10u8] + rest));
        assert forall|i: int| 0 <= i < d.len() implies !is_ws(#[trigger] d[i]) by {
            assert(is_digit(d[i]));
        }
        lemma_values_go_extend(d, seq![10u8] + rest, Seq::<u8>::empty());
        assert(Seq::<u8>::empty() + d =~= d);
        assert((seq![10u8] + rest)[0] == 10u8);
        assert((seq![10u8] + rest).drop_first() =~= rest);
        lemma_parse_dec_digits(v);
        assert(emit_tok(d) == seq![v]);
        lemma_render_roundtrip_go(vs.drop_first());
        assert(seq![v] + vs.drop_first() =~= vs);
    }
}

/// Rendering distributes over concatenation of runs.
pub proof fn lemma_render_append(a: Seq<u32>, b: Seq<u32>)
    ensures
        render_spec(a + b) == render_spec(a) + render_spec(b),
    decreases a.len(),
{
    if a.len() == 0 {
        assert(a + b =~= b);
        assert(render_spec(a) + render_spec(b) =~= render_spec(b));
    } else {
        assert((a + b)[0] == a[0]);
        assert((a + b).drop_first() =~= a.drop_first() + b);
        lemma_render_append(a.drop_first(), b);
        assert(dec_digits(a[0] as int) + seq![10u8] + (render_spec(a.drop_first())
            + render_spec(b)) =~= (dec_digits(a[0] as int) + seq![10u8] + render_spec(
            a.drop_first(),
        )) + render_spec(b));
    }
}

/// A digit string's value only grows as digits are appended.
proof fn lemma_digits_val_prefix(d: Seq<u8>, k: int)
    requires
        0 <= k <= d.len(),
        all_digits(d),
    ensures
        digits_val(d.take(k)) <= digits_val(d),
        0 <= digits_val(d.take(k)),
    decreases d.len() - k,
{
    if k == d.len() {
        assert(d.take(k) =~= d);
        lemma_digits_val_nonneg(d);
    } else {
        lemma_digits_val_prefix(d, k + 1);
        assert(d.take(k + 1).drop_last() =~= d.take(k));
        assert(d.take(k + 1).last() == d[k]);
        assert(is_digit(d[k]));
        lemma_digits_val_nonneg(d.take(k));
        assert(digits_val(d.take(k + 1)) == digits_val(d.take(k)) * 10 + (d[k] - 48));
    }
}

proof fn lemma_digits_val_nonneg(d: Seq<u8>)
    requires
        all_digits(d),
    ensures
        0 <= digits_val(d),
    decreases d.len(),
{
    if d.len() > 0 {
        assert forall|i: int| 0 <= i < d.drop_last().len() implies is_digit(
            #[trigger] d.drop_last()[i],
        ) by {
            assert(d.drop_last()[i] == d[i]);
        }
        lemma_digits_val_nonneg(d.drop_last());
        assert(is_digit(d.last()));
    }
}

proof fn lemma_div10_le(a: int, b: int)
    requires
        0 <= b,
        a <= b / 10,
    ensures
        a * 10 <= b,
{
    vstd::arithmetic::div_mod::lemma_fundamental_div_mod(b, 10);
    vstd::arithmetic::div_mod::lemma_mod_bound(b, 10);
}

proof fn lemma_div10_gt(a: int, b: int)
    requires
        0 <= b,
        a > b / 10,
    ensures
        a * 10 > b,
{
    vstd::arithmetic::div_mod::lemma_fundamental_div_mod(b, 10);
    vstd::arithmetic::div_mod::lemma_mod_bound(b, 10);
}

/// Parses the token held in `s[lo..hi]` as the format defines it: an
/// optional leading `+`, then decimal digits fitting in 32 bits.
pub fn parse_ascii_u32(s: &[u8], lo: usize, hi: usize) -> (r: Option<u32>)
    requires
        lo <= hi <= s@.len(),
    ensures
        r == parse_tok(s@.subrange(lo as int, hi as int)),
{
    let ghost t = s@.subrange(lo as int, hi as int);
    let mut start = lo;
    if start < hi && s[start] == 43 {
        start = start + 1;
    }
    let ghost d = s@.subrange(start as int, hi as int);
    proof {
        if t.len() > 0 && t[0] == 43 {
            assert(d =~= t.drop_first());
        } else {
            assert(d =~= t);
        }
    }
    if start == hi {
        return None;
    }
    let mut acc: u32 = 0;
    let mut i = start;
    while i < hi
        invariant
            lo <= start <= i <= hi <= s@.len(),
            d == s@.subrange(start as int, hi as int),
            d == (if t.len() > 0 && t[0] == 43 {
                t.drop_first()
            } else {
                t
            }),
            t == s@.subrange(lo as int, hi as int),
            d.len() > 0,
            all_digits(d.take(i - start)),
            acc == digits_val(d.take(i - start)),
        decreases hi - i,
    {
        let c = s[i];
        proof {
            assert(d[i - start] == s@[i as int]);
        }
        if c < 48 || c > 57 {
            proof {
                assert(!is_digit(d[i - start]));
                assert(!all_digits(d));
            }
            return None;
        }
        let dv = (c - 48) as u32;
        if acc > (u32::MAX - dv) / 10 {
            proof {
                lemma_div10_gt(acc as int, (u32::MAX - dv) as int);
                assert(acc * 10 + dv > u32::MAX);
                assert(d.take(i - start + 1).drop_last() =~= d.take(i - start));
                assert(d.take(i - start + 1).last() == d[i - start]);
                assert(digits_val(d.take(i - start + 1)) == acc * 10 + dv);
                if all_digits(d) {
                    lemma_digits_val_prefix(d, i - start + 1);
                    assert(digits_val(d) > u32::MAX);
                }
            }
            return None;
        }
        proof {
            lemma_div10_le(acc as int, (u32::MAX - dv) as int);
            assert(acc * 10 + dv <= u32::MAX);
            assert(d.take(i - start + 1).drop_last() =~= d.take(i - start));
            assert(d.take(i - start + 1).last() == d[i - start]);
            assert(all_digits(d.take(i - start + 1))) by {
                assert forall|k: int| 0 <= k < i - start + 1 implies is_digit(
                    #[trigger] d.take(i - start + 1)[k],
                ) by {
                    if k < i - start {
                        assert(d.take(i - start + 1)[k] == d.take(i - start)[k]);
                    } else {
                        assert(d.take(i - start + 1)[k] == d[i - start]);
                    }
                }
            }
        }
        acc = acc * 10 + dv;
        i = i + 1;
    }
    proof {
        assert(d.take(i - start) =~= d);
        assert(d.len() > 0);
    }
    Some(acc)
}

/// Decides whether a byte separates tokens.
pub fn is_ws_byte(b: u8) -> (r: bool)
    ensures
        r == is_ws(b),
{
    b == 32 || b == 9 || b == 10 || b == 11 || b == 12 || b == 13
}

/// Reads every parsable token out of the bytes, in order; tokens that do
/// not parse are skipped.
pub fn parse_values(data: &[u8]) -> (values: Vec<u32>)
    ensures
        values@ == values_of(data@),
{
    let ghost sdata = data@;
    let mut values: Vec<u32> = Vec::new();
    let mut i: usize = 0;
    let mut ts: usize = 0;
    proof {
        assert(sdata.skip(0) =~= sdata);
        assert(sdata.subrange(0, 0) =~= Seq::<u8>::empty());
        assert(values@ + values_go(sdata, Seq::<u8>::empty()) =~= values_of(sdata));
    }
    while i < data.len()
        invariant
            ts <= i <= sdata.len(),
            data@ == sdata,
            values_of(sdata) == values@ + values_go(
                sdata.skip(i as int),
                sdata.subrange(ts as int, i as int),
            ),
        decreases sdata.len() - i,
    {
        let ghost cur = sdata.subrange(ts as int, i as int);
        proof {
            assert(sdata.skip(i as int)[0] == sdata[i as int]);
            assert(sdata.skip(i as int).drop_first() =~= sdata.skip(i as int + 1));
        }
        if is_ws_byte(data[i]) {
            let parsed = parse_ascii_u32(data, ts, i);
            proof {
                assert(values_go(sdata.skip(i as int), cur) == emit_tok(cur) + values_go(
                    sdata.skip(i as int + 1),
                    Seq::<u8>::empty(),
                ));
                assert(sdata.subrange(i as int + 1, i as int + 1) =~= Seq::<u8>::empty());
            }
            match parsed {
                Some(v) => {
                    proof {
                        assert(values@ + (emit_tok(cur) + values_go(
                            sdata.skip(i as int + 1),
                            Seq::<u8>::empty(),
                        )) =~= values@.push(v) + values_go(
                            sdata.skip(i as int + 1),
                            Seq::<u8>::empty(),
                        ));
                    }
                    values.push(v);
                },
                None => {
                    proof {
                        assert(values@ + (emit_tok(cur) + values_go(
                            sdata.skip(i as int + 1),
                            Seq::<u8>::empty(),
                        )) =~= values@ + values_go(sdata.skip(i as int + 1), Seq::<u8>::empty()));
                    }
                },
            }
            i = i + 1;
            ts = i;
        } else {
            proof {
                assert(sdata.subrange(ts as int, i as int + 1) =~= cur.push(sdata[i as int]));
            }
            i = i + 1;
        }
    }
    let ghost cur = sdata.subrange(ts as int, i as int);
    proof {
        assert(sdata.skip(i as int) =~= Seq::<u8>::empty());
        assert(values_go(sdata.skip(i as int), cur) == emit_tok(cur));
    }
    let parsed = parse_ascii_u32(data, ts, i);
    match parsed {
        Some(v) => {
            proof {
                assert(values@ + emit_tok(cur) =~= values@.push(v));
            }
            values.push(v);
        },
        None => {
            proof {
                assert(values@ + emit_tok(cur) =~= values@);
            }
        },
    }
    values
}

/// Appends the decimal digits of `v`, most significant first.
fn push_decimal(out: &mut Vec<u8>, v: u32)
    ensures
        final(out)@ == old(out)@ + dec_digits(v as int),
    decreases v,
{
    if v < 10 {
        out.push((48 + v) as u8);
        proof {
            assert((48 + v as int) as u8 == 48 + v as int);
            assert(old(out)@.push((48 + v) as u8) =~= old(out)@ + dec_digits(v as int));
        }
    } else {
        push_decimal(out, v / 10);
        out.push((48 + v % 10) as u8);
        proof {
            assert((48 + (v as int) % 10) as u8 == 48 + (v as int) % 10);
            assert(v % 10 == (v as int) % 10);
            assert(v / 10 == (v as int) / 10);
            assert(old(out)@ + dec_digits((v / 10) as int) + seq![(48 + v % 10) as u8]
                =~= old(out)@ + dec_digits(v as int));
        }
    }
}

/// Renders a run of values in the record format: each value's decimal
/// digits on a line of its own.
pub fn render_values(data: &[u32]) -> (out: Vec<u8>)
    ensures
        out@ == render_spec(data@),
{
    let ghost sdata = data@;
    let mut out: Vec<u8> = Vec::new();
    let mut i: usize = 0;
    proof {
        assert(sdata.take(0) =~= Seq::<u32>::empty());
        assert(out@ =~= render_spec(sdata.take(0)));
    }
    while i < data.len()
        invariant
            i <= sdata.len(),
            data@ == sdata,
            out@ == render_spec(sdata.take(i as int)),
        decreases sdata.len() - i,
    {
        push_decimal(&mut out, data[i]);
        out.push(10);
        proof {
            let v = sdata[i as int];
            lemma_render_append(sdata.take(i as int), seq![v]);
            assert(sdata.take(i as int + 1) =~= sdata.take(i as int) + seq![v]);
            assert(seq![v].drop_first() =~= Seq::<u32>::empty());
            assert(render_spec(seq![v]) == dec_digits(v as int) + seq![10u8] + render_spec(
                Seq::<u32>::empty(),
            ));
            assert(render_spec(sdata.take(i as int)) + dec_digits(v as int) + seq![10u8]
                =~= render_spec(sdata.take(i as int)) + (dec_digits(v as int) + seq![10u8]
                + Seq::<u8>::empty()));
        }
        i = i + 1;
    }
    proof {
        assert(sdata.take(i as int) =~= sdata);
    }
    out
}

} // verus!
