//! Parsing of bracketed operator-address text such as `[0, 8, 10]`: a
//! comma-separated list of decimal integers in brackets, with arbitrary
//! whitespace and empty segments tolerated.

use vstd::prelude::*;
use vstd::string::StringExecFns;
use crate::addr::Addr;
use crate::errors::ReportError;
use crate::strs;

verus! {

/// Index of the first comma at or after `i`, or -1.
pub open spec fn first_comma_from(s: Seq<char>, i: int) -> int
    decreases s.len() - i,
{
    if i < 0 || i >= s.len() {
        -1
    } else if s[i] == ',' {
        i
    } else {
        first_comma_from(s, i + 1)
    }
}

/// The numbers of one segment: empty after trimming contributes nothing, a
/// trimmed run of digits that fits 32 bits contributes its value, anything
/// else is an error.
pub open spec fn seg_val(seg: Seq<char>) -> Option<Seq<u32>> {
    let t = strs::trim_spec(seg);
    if t.len() == 0 {
        Some(Seq::empty())
    } else if strs::all_digits(t) && strs::digits_val(t) < 0x1_0000_0000 {
        Some(seq![strs::digits_val(t) as u32])
    } else {
        None
    }
}

/// The numbers of the comma-separated list from position `i` on.
pub open spec fn addr_parts_from(s: Seq<char>, i: int) -> Option<Seq<u32>>
    decreases s.len() - i,
{
    let c = first_comma_from(s, i);
    if !(i <= c < s.len()) {
        seg_val(s.subrange(i, s.len() as int))
    } else {
        match (seg_val(s.subrange(i, c)), addr_parts_from(s, c + 1)) {
            (Some(v1), Some(rest)) => Some(v1 + rest),
            _ => None,
        }
    }
}

/// The address denoted by the whole string: after trimming it must be a
/// bracketed comma-separated list of decimal integers.
pub open spec fn parse_addr_spec(s: Seq<char>) -> Option<Seq<u32>> {
    let t = strs::trim_spec(s);
    if t.len() < 2 || t[0] != '[' || t[t.len() - 1] != ']' {
        None
    } else {
        addr_parts_from(t.subrange(1, t.len() - 1), 0)
    }
}

pub open spec fn opt_vec_view(r: Option<Vec<u32>>) -> Option<Seq<u32>> {
    match r {
        Some(v) => Some(v@),
        None => None,
    }
}

fn first_comma(v: &Vec<char>, i: usize) -> (r: Option<usize>)
    requires
        i <= v@.len(),
    ensures
        match r {
            Some(c) => i <= c < v@.len() && first_comma_from(v@, i as int) == c as int,
            None => first_comma_from(v@, i as int) == -1,
        },
{
    let mut cur: usize = i;
    while cur < v.len()
        invariant
            i <= cur <= v@.len(),
            first_comma_from(v@, i as int) == first_comma_from(v@, cur as int),
        decreases v@.len() - cur,
    {
        if v[cur] == ',' {
            return Some(cur);
        }
        cur += 1;
    }
    None
}

fn copy_range(v: &Vec<char>, lo: usize, hi: usize) -> (r: Vec<char>)
    requires
        lo <= hi <= v@.len(),
    ensures
        r@ == v@.subrange(lo as int, hi as int),
{
    let mut r: Vec<char> = Vec::new();
    let mut k: usize = lo;
    while k < hi
        invariant
            lo <= k <= hi <= v@.len(),
            r@ == v@.subrange(lo as int, k as int),
        decreases hi - k,
    {
        r.push(v[k]);
        proof {
            assert(r@ =~= v@.subrange(lo as int, k + 1));
        }
        k += 1;
    }
    r
}

/// The numbers of one segment, or `None` when it is not a blank or a
/// 32-bit decimal integer.
fn segment_value(v: &Vec<char>, lo: usize, hi: usize) -> (r: Option<Option<u32>>)
    requires
        lo <= hi <= v@.len(),
    ensures
        match r {
            Some(Some(x)) => seg_val(v@.subrange(lo as int, hi as int)) == Some(seq![x]),
            Some(None) => seg_val(v@.subrange(lo as int, hi as int)) == Some(Seq::<u32>::empty()),
            None => seg_val(v@.subrange(lo as int, hi as int)) is None,
        },
{
    let seg = copy_range(v, lo, hi);
    let t = strs::trim_chars(&seg);
    if t.len() == 0 {
        return Some(None);
    }
    match strs::parse_u32_digits(&t) {
        Some(x) => Some(Some(x)),
        None => None,
    }
}

/// Parse the comma-separated list from position `i` on.
fn parse_parts(v: &Vec<char>, i: usize) -> (r: Option<Vec<u32>>)
    requires
        i <= v@.len(),
    ensures
        opt_vec_view(r) == addr_parts_from(v@, i as int),
    decreases v@.len() - i,
{
    match first_comma(v, i) {
        None => {
            match segment_value(v, i, v.len()) {
                Some(Some(x)) => {
                    let mut out: Vec<u32> = Vec::new();
                    out.push(x);
                    proof {
                        assert(out@ =~= seq![x]);
                    }
                    Some(out)
                },
                Some(None) => {
                    let out: Vec<u32> = Vec::new();
                    proof {
                        assert(out@ =~= Seq::<u32>::empty());
                    }
                    Some(out)
                },
                None => None,
            }
        },
        Some(c) => {
            assert(c < v.len());
            let seg = segment_value(v, i, c);
            let rest = parse_parts(v, c + 1);
            match (seg, rest) {
                (Some(sv), Some(rv)) => {
                    let mut out: Vec<u32> = Vec::new();
                    match sv {
                        Some(x) => {
                            out.push(x);
                        },
                        None => {},
                    }
                    let mut k: usize = 0;
                    let ghost base = out@;
                    while k < rest_len(&rv)
                        invariant
                            k <= rv@.len(),
                            out@ == base + rv@.take(k as int),
                        decreases rv@.len() - k,
                    {
                        out.push(rv[k]);
                        proof {
                            assert(out@ =~= base + rv@.take(k + 1));
                        }
                        k += 1;
                    }
                    proof {
                        assert(rv@.take(rv@.len() as int) =~= rv@);
                        assert(out@ == base + rv@);
                        match seg_val(v@.subrange(i as int, c as int)) {
                            Some(v1) => {
                                assert(base =~= v1);
                            },
                            None => {},
                        }
                    }
                    Some(out)
                },
                _ => None,
            }
        },
    }
}

fn rest_len(v: &Vec<u32>) -> (r: usize)
    ensures
        r == v@.len(),
{
    v.len()
}

/// Parse bracketed address text into an address. Returns `Ok` exactly when
/// the trimmed text is `[` then a comma-separated list of blanks and 32-bit
/// decimal integers then `]`, and then the address is that list of numbers.
pub fn parse_addr(s: &str) -> (r: Result<Addr, ReportError>)
    ensures
        match r {
            Ok(a) => parse_addr_spec(s@) == Some(a@),
            Err(_) => parse_addr_spec(s@) is None,
        },
{
    let chars = strs::str_to_chars(s);
    let t = strs::trim_chars(&chars);
    let n: usize = t.len();
    if n < 2 {
        return Err(ReportError::AddrNotBracketed { text: String::from_str(s) });
    }
    if !(t[0] == '[') || !(t[n - 1] == ']') {
        return Err(ReportError::AddrNotBracketed { text: String::from_str(s) });
    }
    let inner = copy_range(&t, 1, n - 1);
    match parse_parts(&inner, 0) {
        Some(out) => {
            proof {
                assert(inner@ == strs::trim_spec(s@).subrange(1, strs::trim_spec(s@).len() - 1));
            }
            Ok(Addr(out))
        },
        None => Err(ReportError::BadAddrElement { text: String::from_str(s) }),
    }
}


// ------------------------------------------------------- rendered addresses

/// The canonical text of an address: bracketed, comma-space separated
/// decimal numbers.
pub open spec fn addr_text(s: Seq<u32>) -> Seq<char> {
    "["@ + addr_inner(s) + "]"@
}

pub open spec fn addr_inner(s: Seq<u32>) -> Seq<char>
    decreases s.len(),
{
    if s.len() == 0 {
        Seq::empty()
    } else if s.len() == 1 {
        strs::u32_digits(s[0] as nat)
    } else {
        strs::u32_digits(s[0] as nat) + ", "@ + addr_inner(s.skip(1))
    }
}

/// Appending one more number appends a separator and its digits.
pub proof fn lemma_addr_inner_snoc(s: Seq<u32>, x: u32)
    ensures
        addr_inner(s.push(x)) == if s.len() == 0 {
            strs::u32_digits(x as nat)
        } else {
            addr_inner(s) + ", "@ + strs::u32_digits(x as nat)
        },
    decreases s.len(),
{
    let p = s.push(x);
    if s.len() == 0 {
        assert(p.len() == 1 && p[0] == x);
    } else if s.len() == 1 {
        assert(p.skip(1) =~= seq![x]);
        assert(addr_inner(p.skip(1)) == strs::u32_digits(x as nat));
        assert(p[0] == s[0]);
    } else {
        assert(p.skip(1) =~= s.skip(1).push(x));
        lemma_addr_inner_snoc(s.skip(1), x);
        assert(p[0] == s[0]);
        assert(addr_inner(p) == strs::u32_digits(s[0] as nat) + ", "@ + addr_inner(
            s.skip(1).push(x),
        ));
        assert(strs::u32_digits(s[0] as nat) + ", "@ + (addr_inner(s.skip(1)) + ", "@
            + strs::u32_digits(x as nat)) =~= (strs::u32_digits(s[0] as nat) + ", "@ + addr_inner(
            s.skip(1),
        )) + ", "@ + strs::u32_digits(x as nat));
    }
}

/// Digits render as digits: non-empty, all decimal, free of commas and
/// spaces, and reading them back gives the number.
pub proof fn lemma_digits_shape(n: nat)
    ensures
        strs::u32_digits(n).len() >= 1,
        strs::all_digits(strs::u32_digits(n)),
        strs::digits_val(strs::u32_digits(n)) == n,
        forall|k: int|
            0 <= k < strs::u32_digits(n).len() ==> (#[trigger] strs::u32_digits(n)[k]) != ','
                && !strs::is_space(strs::u32_digits(n)[k]),
    decreases n,
{
    if n < 10 {
        let s = strs::u32_digits(n);
        assert(s.len() == 1);
        assert(s[0] == strs::digit_char(n));
        assert(s.drop_last() =~= Seq::<char>::empty());
        assert(strs::digits_val(s) == strs::digits_val(s.drop_last()) * 10 + strs::digit_val(
            s.last(),
        ));
    } else {
        lemma_digits_shape(n / 10);
        let s = strs::u32_digits(n);
        assert(s.drop_last() =~= strs::u32_digits(n / 10));
        assert(s.last() == strs::digit_char(n % 10));
        assert(strs::digits_val(s) == strs::digits_val(s.drop_last()) * 10 + strs::digit_val(
            s.last(),
        ));
        assert((n / 10) * 10 + n % 10 == n);
        assert forall|k: int|
            0 <= k < s.len() implies (#[trigger] s[k]) != ',' && !strs::is_space(s[k]) by {
            if k < s.len() - 1 {
                assert(s[k] == strs::u32_digits(n / 10)[k]);
            }
        }
        assert forall|k: int| 0 <= k < s.len() implies strs::is_digit(#[trigger] s[k]) by {
            if k < s.len() - 1 {
                assert(s[k] == strs::u32_digits(n / 10)[k]);
            }
        }
    }
}

/// No comma before position `c` and a comma at `c`: the scan finds `c`.
proof fn lemma_first_comma_at(t: Seq<char>, i: int, c: int)
    requires
        0 <= i <= c < t.len(),
        forall|k: int| i <= k < c ==> (#[trigger] t[k]) != ',',
        t[c] == ',',
    ensures
        first_comma_from(t, i) == c,
    decreases c - i,
{
    if i < c {
        lemma_first_comma_at(t, i + 1, c);
    }
}

/// No comma from `i` on: the scan finds nothing.
proof fn lemma_no_comma_from(t: Seq<char>, i: int)
    requires
        0 <= i,
        forall|k: int| i <= k < t.len() ==> (#[trigger] t[k]) != ',',
    ensures
        first_comma_from(t, i) == -1,
    decreases t.len() - i,
{
    if i < t.len() {
        lemma_no_comma_from(t, i + 1);
    }
}

/// The scan returns -1 or a position in range.
proof fn lemma_first_comma_range(t: Seq<char>, i: int)
    requires
        0 <= i,
    ensures
        first_comma_from(t, i) == -1 || i <= first_comma_from(t, i) < t.len(),
    decreases t.len() - i,
{
    if i < t.len() && t[i] != ',' {
        lemma_first_comma_range(t, i + 1);
    }
}

/// The comma scan commutes with dropping a prefix.
proof fn lemma_first_comma_shift(t: Seq<char>, i: int)
    requires
        0 <= i <= t.len(),
    ensures
        first_comma_from(t.skip(i), 0) == -1 ==> first_comma_from(t, i) == -1,
        first_comma_from(t.skip(i), 0) != -1 ==> first_comma_from(t, i) == i + first_comma_from(
            t.skip(i),
            0,
        ),
    decreases t.len() - i,
{
    let u = t.skip(i);
    if i < t.len() {
        assert(u[0] == t[i]);
        if t[i] == ',' {
            assert(first_comma_from(t, i) == i);
            assert(first_comma_from(u, 0) == 0);
        } else {
            lemma_first_comma_shift(t, i + 1);
            assert(t.skip(i + 1) =~= u.skip(1));
            assert(first_comma_from(t, i) == first_comma_from(t, i + 1));
            assert(first_comma_from(u, 0) == first_comma_from(u, 1));
            lemma_first_comma_shift(u, 1);
            let x = first_comma_from(u.skip(1), 0);
            lemma_first_comma_range(u.skip(1), 0);
            if x == -1 {
                assert(first_comma_from(u, 1) == -1);
                assert(first_comma_from(t, i + 1) == -1);
            } else {
                assert(first_comma_from(u, 1) == 1 + x);
                assert(first_comma_from(t, i + 1) == i + 1 + x);
            }
        }
    } else {
        assert(i >= t.len());
        assert(first_comma_from(t, i) == -1);
        assert(u.len() == 0);
        assert(first_comma_from(u, 0) == -1);
    }
}

/// Parsing from position `i` equals parsing the dropped-prefix text.
proof fn lemma_parts_shift(t: Seq<char>, i: int)
    requires
        0 <= i <= t.len(),
    ensures
        addr_parts_from(t, i) == addr_parts_from(t.skip(i), 0),
    decreases t.len() - i,
{
    let u = t.skip(i);
    lemma_first_comma_shift(t, i);
    let c = first_comma_from(t, i);
    if !(i <= c < t.len()) {
        assert(t.subrange(i, t.len() as int) =~= u.subrange(0, u.len() as int));
    } else {
        let cu = c - i;
        assert(first_comma_from(u, 0) == cu);
        assert(t.subrange(i, c) =~= u.subrange(0, cu));
        lemma_parts_shift(t, c + 1);
        assert(t.skip(c + 1) =~= u.skip(cu + 1));
        lemma_parts_shift(u, cu + 1);
    }
}


/// Rendered address text parses back to the same address, whatever
/// space padding precedes the list.
proof fn lemma_parse_padded(pad: Seq<char>, s: Seq<u32>)
    requires
        forall|k: int| 0 <= k < pad.len() ==> strs::is_space(#[trigger] pad[k]),
    ensures
        addr_parts_from(pad + addr_inner(s), 0) == Some(s),
    decreases s.len(),
{
    let t = pad + addr_inner(s);
    if s.len() == 0 {
        assert(addr_inner(s) =~= Seq::<char>::empty());
        assert(t =~= pad);
        assert forall|k: int| 0 <= k < t.len() implies (#[trigger] t[k]) != ',' by {
            assert(strs::is_space(t[k]));
        }
        lemma_no_comma_from(t, 0);
        assert(t.subrange(0, t.len() as int) =~= t);
        strs::lemma_trim_front_skip(t, t.len() as int);
        assert(t.skip(t.len() as int) =~= Seq::<char>::empty());
        assert(strs::trim_spec(t).len() == 0);
        assert(seg_val(t) == Some(Seq::<u32>::empty()));
        assert(s =~= Seq::<u32>::empty());
    } else {
        let d = strs::u32_digits(s[0] as nat);
        lemma_digits_shape(s[0] as nat);
        if s.len() == 1 {
            assert(addr_inner(s) == d);
            assert forall|k: int| 0 <= k < t.len() implies (#[trigger] t[k]) != ',' by {
                if k < pad.len() {
                    assert(strs::is_space(t[k]));
                } else {
                    assert(t[k] == d[k - pad.len()]);
                }
            }
            lemma_no_comma_from(t, 0);
            assert(t.subrange(0, t.len() as int) =~= t);
            assert(t[pad.len() as int] == d[0]);
            strs::lemma_trim_front_skip(t, pad.len() as int);
            assert(t.skip(pad.len() as int) =~= d);
            assert(!strs::is_space(d.last()));
            assert(strs::trim_back(d) == d);
            assert(strs::trim_spec(t) == d);
            assert((s[0] as nat) < 0x1_0000_0000);
            assert(seg_val(t) == Some(seq![s[0]]));
            assert(seq![s[0]] =~= s);
        } else {
            reveal_strlit(", ");
            assert(", "@.len() == 2 && ", "@[0] == ',' && ", "@[1] == ' ');
            assert(addr_inner(s) == d + ", "@ + addr_inner(s.skip(1)));
            let c = (pad.len() + d.len()) as int;
            assert(t[c] == ',') by {
                assert(t[c] == addr_inner(s)[d.len() as int]);
                assert(addr_inner(s)[d.len() as int] == ", "@[0]);
            }
            assert forall|k: int| 0 <= k < c implies (#[trigger] t[k]) != ',' by {
                if k < pad.len() {
                    assert(strs::is_space(t[k]));
                } else {
                    assert(t[k] == d[k - pad.len()]);
                }
            }
            lemma_first_comma_at(t, 0, c);
            // the first segment is the padded digits of the head
            assert(t.subrange(0, c) =~= pad + d);
            let seg = t.subrange(0, c);
            assert(seg[pad.len() as int] == d[0]);
            strs::lemma_trim_front_skip(seg, pad.len() as int);
            assert(seg.skip(pad.len() as int) =~= d);
            assert(!strs::is_space(d.last()));
            assert(strs::trim_back(d) == d);
            assert(strs::trim_spec(seg) == d);
            assert((s[0] as nat) < 0x1_0000_0000);
            assert(seg_val(seg) == Some(seq![s[0]]));
            // the rest is the tail list behind one space of padding
            lemma_parts_shift(t, c + 1);
            assert(t.skip(c + 1) =~= seq![' '] + addr_inner(s.skip(1)));
            assert(forall|k: int| 0 <= k < seq![' '].len() ==> strs::is_space(#[trigger] seq![' '][k]));
            lemma_parse_padded(seq![' '], s.skip(1));
            assert(addr_parts_from(t, c + 1) == Some(s.skip(1)));
            assert(seq![s[0]] + s.skip(1) =~= s);
        }
    }
}

/// The canonical address text parses back to the address it renders.
pub proof fn lemma_addr_text_parses(s: Seq<u32>)
    ensures
        parse_addr_spec(addr_text(s)) == Some(s),
{
    let t = addr_text(s);
    reveal_strlit("[");
    reveal_strlit("]");
    assert("["@.len() == 1 && "["@[0] == '[');
    assert("]"@.len() == 1 && "]"@[0] == ']');
    assert(t.len() >= 2);
    assert(t[0] == '[');
    assert(t[t.len() - 1] == ']');
    assert(!strs::is_space(t[0]));
    strs::lemma_trim_front_skip(t, 0);
    assert(t.skip(0) =~= t);
    assert(!strs::is_space(t.last()));
    assert(strs::trim_back(t) == t);
    assert(strs::trim_spec(t) == t);
    assert(t.subrange(1, t.len() - 1) =~= Seq::<char>::empty() + addr_inner(s));
    lemma_parse_padded(Seq::empty(), s);
}

} // verus!
