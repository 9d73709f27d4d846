//! Line-by-line sortedness checker.
//!
//! The checker reads record content one line at a time: every line must
//! parse, after trimming, as one unsigned 32-bit value, and the values
//! must never decrease.  A line that fails to parse decides the verdict
//! as a parse failure; an inversion decides it as unsorted.  Unlike the
//! bulk loader, the checker does not skip bad lines.

use crate::merge_sorter::ram::sorted;
use crate::records::{
    dec_digits, is_digit, is_ws, is_ws_byte, lemma_dec_digits_props, lemma_parse_dec_digits,
    parse_ascii_u32, parse_tok, render_spec,
};
use vstd::prelude::*;

verus! {

/// The line with its leading whitespace removed.
pub open spec fn trim_start(s: Seq<u8>) -> Seq<u8>
    decreases s.len(),
{
    if s.len() > 0 && is_ws(s[0]) {
        trim_start(s.drop_first())
    } else {
        s
    }
}

/// The line with its trailing whitespace removed.
pub open spec fn trim_end(s: Seq<u8>) -> Seq<u8>
    decreases s.len(),
{
    if s.len() > 0 && is_ws(s.last()) {
        trim_end(s.drop_last())
    } else {
        s
    }
}

/// The line with its surrounding whitespace removed, as it is trimmed
/// before parsing.
pub open spec fn trim_spec(s: Seq<u8>) -> Seq<u8> {
    trim_end(trim_start(s))
}

/// The value a whole line denotes: its trimmed text read as one token.
pub open spec fn line_val(line: Seq<u8>) -> Option<u32> {
    parse_tok(trim_spec(line))
}

/// Line-by-line scan of the remaining bytes: `cur` is the line being
/// read and `prev` the value of the last finished line.
pub open spec fn check_go(s: Seq<u8>, cur: Seq<u8>, prev: Option<u32>) -> Option<bool>
    decreases s.len(),
{
    if s.len() == 0 {
        if cur.len() == 0 {
            Some(true)
        } else {
            match line_val(cur) {
                None => None,
                Some(v) => if prev matches Some(p) && p > v {
                    Some(false)
                } else {
                    Some(true)
                },
            }
        }
    } else if s[0] == 10 {
        match line_val(cur) {
            None => None,
            Some(v) => if prev matches Some(p) && p > v {
                Some(false)
            } else {
                check_go(s.drop_first(), Seq::<u8>::empty(), Some(v))
            },
        }
    } else {
        check_go(s.drop_first(), cur.push(s[0]), prev)
    }
}

/// The checker's verdict on a file's content: `Some(true)` when every
/// line parses and the values never decrease, `Some(false)` at the first
/// inversion, `None` when a line fails to parse before any inversion is
/// met.  An empty file has no first value and reports a parse failure.
pub open spec fn check_content(s: Seq<u8>) -> Option<bool> {
    if s.len() == 0 {
        None
    } else {
        check_go(s, Seq::<u8>::empty(), None::<u32>)
    }
}

/// Scanning a stretch of bytes free of line breaks only lengthens the
/// current line.
proof fn lemma_check_go_extend(d: Seq<u8>, t: Seq<u8>, cur: Seq<u8>, prev: Option<u32>)
    requires
        forall|i: int| 0 <= i < d.len() ==> #[trigger] d[i] != 10,
    ensures
        check_go(d + t, cur, prev) == check_go(t, cur + d, prev),
    decreases d.len(),
{
    if d.len() == 0 {
        assert(d + t =~= t);
        assert(cur + d =~= cur);
    } else {
        assert((d + t)[0] == d[0]);
        assert(d[0] != 10);
        assert((d + t).drop_first() =~= d.drop_first() + t);
        lemma_check_go_extend(d.drop_first(), t, cur.push(d[0]), prev);
        assert(cur.push(d[0]) + d.drop_first() =~= cur + d);
    }
}

/// A token with no surrounding whitespace is its own trimmed line.
proof fn lemma_trim_token(d: Seq<u8>)
    requires
        d.len() > 0,
        !is_ws(d[0]),
        !is_ws(d.last()),
    ensures
        trim_spec(d) == d,
{
}

proof fn lemma_check_go_sorted(vs: Seq<u32>, prev: Option<u32>)
    requires
        sorted(vs),
        prev matches Some(p) ==> vs.len() > 0 ==> p <= vs[0],
    ensures
        check_go(render_spec(vs), Seq::<u8>::empty(), prev) == Some(true),
    decreases vs.len(),
{
    if vs.len() == 0 {
    } else {
        let v = vs[0];
        let d = dec_digits(v as int);
        let rest = render_spec(vs.drop_first());
        lemma_dec_digits_props(v as int);
        assert(render_spec(vs) =~= d + (seq![10u8] + rest));
        assert forall|i: int| 0 <= i < d.len() implies #[trigger] d[i] != 10 by {
            assert(is_digit(d[i]));
        }
        lemma_check_go_extend(d, seq![10u8] + rest, Seq::<u8>::empty(), prev);
        assert(Seq::<u8>::empty() + d =~= d);
        assert((seq![10u8] + rest)[0] == 10u8);
        assert((seq![10u8] + rest).drop_first() =~= rest);
        assert(is_digit(d[0]) && is_digit(d.last()));
        lemma_trim_token(d);
        lemma_parse_dec_digits(v);
        assert(line_val(d) == Some(v));
        assert(sorted(vs.drop_first())) by {
            assert forall|i: int, j: int|
                0 <= i < j < vs.drop_first().len() implies vs.drop_first()[i]
                <= vs.drop_first()[j] by {
                assert(vs.drop_first()[i] == vs[i + 1]);
                assert(vs.drop_first()[j] == vs[j + 1]);
            }
        }
        assert(vs.drop_first().len() > 0 ==> v <= vs.drop_first()[0]);
        lemma_check_go_sorted(vs.drop_first(), Some(v));
    }
}

/// The checker approves the sorter's work: rendered content holding at
/// least one record in non-decreasing order is reported as sorted.
pub proof fn lemma_checker_accepts_sorted(vs: Seq<u32>)
    requires
        sorted(vs),
        vs.len() > 0,
    ensures
        check_content(render_spec(vs)) == Some(true),
{
    lemma_dec_digits_props(vs[0] as int);
    assert(render_spec(vs).len() > 0);
    lemma_check_go_sorted(vs, None::<u32>);
}

proof fn lemma_trim_start_at(s: Seq<u8>, k: int)
    requires
        0 <= k <= s.len(),
        forall|j: int| 0 <= j < k ==> is_ws(#[trigger] s[j]),
        k < s.len() ==> !is_ws(s[k]),
    ensures
        trim_start(s) == s.skip(k),
    decreases k,
{
    if k == 0 {
        assert(s.skip(0) =~= s);
    } else {
        assert(is_ws(s[0]));
        assert forall|j: int| 0 <= j < k - 1 implies is_ws(#[trigger] s.drop_first()[j]) by {
            assert(s.drop_first()[j] == s[j + 1]);
        }
        assert(k - 1 < s.drop_first().len() ==> !is_ws(s.drop_first()[k - 1]));
        lemma_trim_start_at(s.drop_first(), k - 1);
        assert(s.drop_first().skip(k - 1) =~= s.skip(k));
    }
}

proof fn lemma_trim_end_at(s: Seq<u8>, m: int)
    requires
        0 <= m <= s.len(),
        forall|j: int| m <= j < s.len() ==> is_ws(#[trigger] s[j]),
        m > 0 ==> !is_ws(s[m - 1]),
    ensures
        trim_end(s) == s.take(m),
    decreases s.len(),
{
    if m == s.len() {
        assert(s.take(m) =~= s);
    } else {
        assert(is_ws(s[s.len() - 1]));
        assert forall|j: int| m <= j < s.drop_last().len() implies is_ws(
            #[trigger] s.drop_last()[j],
        ) by {
            assert(s.drop_last()[j] == s[j]);
        }
        assert(m > 0 ==> s.drop_last()[m - 1] == s[m - 1]);
        lemma_trim_end_at(s.drop_last(), m);
        assert(s.drop_last().take(m) =~= s.take(m));
    }
}

/// Parses the line held in `s[lo..hi]`: surrounding whitespace is
/// trimmed and what is left must be one token.
fn parse_line(s: &[u8], lo: usize, hi: usize) -> (r: Option<u32>)
    requires
        lo <= hi <= s@.len(),
    ensures
        r == line_val(s@.subrange(lo as int, hi as int)),
{
    let ghost line = s@.subrange(lo as int, hi as int);
    let mut a = lo;
    while a < hi && is_ws_byte(s[a])
        invariant
            lo <= a <= hi <= s@.len(),
            forall|j: int| lo <= j < a ==> is_ws(#[trigger] s@[j]),
        decreases hi - a,
    {
        a = a + 1;
    }
    let mut b = hi;
    while b > a && is_ws_byte(s[b - 1])
        invariant
            a <= b <= hi <= s@.len(),
            forall|j: int| b <= j < hi ==> is_ws(#[trigger] s@[j]),
        decreases b,
    {
        b = b - 1;
    }
    proof {
        assert forall|j: int| 0 <= j < a - lo implies is_ws(#[trigger] line[j]) by {
            assert(line[j] == s@[lo + j]);
        }
        assert(a - lo < line.len() ==> !is_ws(line[a - lo]));
        lemma_trim_start_at(line, a - lo);
        let mid = s@.subrange(a as int, hi as int);
        assert(line.skip(a - lo) =~= mid);
        assert forall|j: int| b - a <= j < mid.len() implies is_ws(#[trigger] mid[j]) by {
            assert(mid[j] == s@[a + j]);
        }
        assert(b - a > 0 ==> mid[b - a - 1] == s@[b - 1]);
        lemma_trim_end_at(mid, b - a);
        assert(mid.take(b - a) =~= s@.subrange(a as int, b as int));
        assert(trim_spec(line) == s@.subrange(a as int, b as int));
    }
    parse_ascii_u32(s, a, b)
}

/// Reports whether the records are non-decreasing from line to line, or
/// that a line failed to parse.
pub fn is_sorted(data: &[u8]) -> (verdict: Option<bool>)
    ensures
        verdict == check_content(data@),
{
    let ghost sdata = data@;
    if data.len() == 0 {
        return None;
    }
    let mut i: usize = 0;
    let mut ls: usize = 0;
    let mut has_prev = false;
    let mut prev: u32 = 0;
    proof {
        assert(sdata.skip(0) =~= sdata);
        assert(sdata.subrange(0, 0) =~= Seq::<u8>::empty());
    }
    while i < data.len()
        invariant
            ls <= i <= sdata.len(),
            data@ == sdata,
            sdata.len() > 0,
            check_content(sdata) == check_go(
                sdata.skip(i as int),
                sdata.subrange(ls as int, i as int),
                if has_prev {
                    Some(prev)
                } else {
                    None::<u32>
                },
            ),
        decreases sdata.len() - i,
    {
        let ghost cur = sdata.subrange(ls as int, i as int);
        proof {
            assert(sdata.skip(i as int)[0] == sdata[i as int]);
            assert(sdata.skip(i as int).drop_first() =~= sdata.skip(i as int + 1));
        }
        if data[i] == 10 {
            let lv = parse_line(data, ls, i);
            match lv {
                None => {
                    return None;
                },
                Some(v) => {
                    if has_prev && prev > v {
                        return Some(false);
                    }
                    proof {
                        assert(sdata.subrange(i as int + 1, i as int + 1) =~= Seq::<u8>::empty());
                    }
                    has_prev = true;
                    prev = v;
                },
            }
            i = i + 1;
            ls = i;
        } else {
            proof {
                assert(sdata.subrange(ls as int, i as int + 1) =~= cur.push(sdata[i as int]));
            }
            i = i + 1;
        }
    }
    let ghost cur = sdata.subrange(ls as int, i as int);
    proof {
        assert(sdata.skip(i as int) =~= Seq::<u8>::empty());
    }
    if ls == i {
        proof {
            assert(cur =~= Seq::<u8>::empty());
        }
        return Some(true);
    }
    let lv = parse_line(data, ls, i);
    match lv {
        None => None,
        Some(v) => {
            if has_prev && prev > v {
                Some(false)
            } else {
                Some(true)
            }
        },
    }
}

} // verus!
