use vstd::prelude::*;

use crate::geometry::{Vec2, COORD_LIMIT, SCALE};
use crate::spline::{in_unit_square, sorted_by_x};
use crate::number::{lemma_digits_concat, parse_field, parse_units};
use crate::text::{
    all_digits, chars_of, decimal, digit_char, digit_to_char, digit_value, digits_value,
    find_char, index_from, index_of, is_digit, push_chars, push_decimal, push_str,
    slice_chars, string_of,
};

verus! {

// ---------------------------------------------------------------- ordering

/// Where a stable insertion puts `p` into the sorted `s`: before the first
/// element, at or after `i`, whose x is greater than `p.x`.
pub open spec fn insert_pos(s: Seq<Vec2>, p: Vec2, i: int) -> int
    decreases s.len() - i,
{
    if i < 0 || i >= s.len() {
        s.len() as int
    } else if s[i].x > p.x {
        i
    } else {
        insert_pos(s, p, i + 1)
    }
}

/// `s` sorted by x, stably: points with equal x keep their order.
pub open spec fn sort_x(s: Seq<Vec2>) -> Seq<Vec2>
    decreases s.len(),
{
    if s.len() == 0 {
        s
    } else {
        let rest = sort_x(s.drop_last());
        rest.insert(insert_pos(rest, s.last(), 0), s.last())
    }
}

// ---------------------------------------------------------------- text

/// The four digits after the decimal point of `f` (taken below 10000).
pub open spec fn frac4(f: int) -> Seq<char> {
    seq![digit_char(f / 1000), digit_char(f / 100), digit_char(f / 10), digit_char(f)]
}

pub open spec fn abs(v: int) -> int {
    if v < 0 {
        -v
    } else {
        v
    }
}

/// A coordinate written with exactly four decimal places, as `{:.4}` does.
pub open spec fn fixed4(v: int) -> Seq<char> {
    let m = abs(v);
    let sign = if v < 0 {
        seq!['-']
    } else {
        Seq::<char>::empty()
    };
    sign + decimal((m / 10000) as nat) + seq!['.'] + frac4(m % 10000)
}

/// One record: `x:y` and a newline.
pub open spec fn point_line(p: Vec2) -> Seq<char> {
    fixed4(p.x as int) + seq![':'] + fixed4(p.y as int) + seq!['\n']
}

/// The records of `s`, in order.
pub open spec fn lines_text(s: Seq<Vec2>) -> Seq<char>
    decreases s.len(),
{
    if s.len() == 0 {
        Seq::<char>::empty()
    } else {
        point_line(s[0]) + lines_text(s.drop_first())
    }
}

/// What `encode` returns.
pub open spec fn encode_text(s: Seq<Vec2>) -> Seq<char> {
    lines_text(sort_x(s))
}

// ---------------------------------------------------------------- parsing

/// Why a field did not parse.
pub open spec fn number_fault(s: Seq<char>) -> Seq<char> {
    if s.len() == 0 {
        "cannot parse float from empty string"@
    } else {
        "invalid float literal"@
    }
}

/// A line without the carriage return before its newline, if it has one.
pub open spec fn strip_cr(l: Seq<char>) -> Seq<char> {
    if l.len() > 0 && l.last() == '\r' {
        l.drop_last()
    } else {
        l
    }
}

/// The point one line holds, or the message for line number `n`.
pub open spec fn parse_line(l: Seq<char>, n: nat) -> Result<Vec2, Seq<char>> {
    let colon = index_of(l, ':');
    let xs = l.take(colon);
    let ys = l.skip(colon + 1);
    let head = "line "@ + decimal(n);
    if colon >= l.len() {
        Err(head + ": unexpected data "@ + l)
    } else if parse_units(xs) is None {
        Err(head + ": x is not float32: "@ + number_fault(xs) + " at "@ + l)
    } else if parse_units(ys) is None {
        Err(head + ": y is not float32: "@ + number_fault(ys) + " at "@ + l)
    } else {
        Ok(Vec2 { x: parse_units(xs)->Some_0 as i64, y: parse_units(ys)->Some_0 as i64 })
    }
}

#[via_fn]
proof fn decode_from_decreases(s: Seq<char>, n: nat) {
    if s.len() > 0 {
        lemma_index_from(s, '\n', 0);
    }
}

/// The text of the first line of `s`, which ends before index `i`: a
/// carriage return is dropped only where a newline follows it.
pub open spec fn line_text(s: Seq<char>, i: int) -> Seq<char> {
    if i < s.len() {
        strip_cr(s.take(i))
    } else {
        s.take(i)
    }
}

/// The points of the lines of `s`, the first of them numbered `n`; the
/// message of the first line that fails.
pub open spec fn decode_from(s: Seq<char>, n: nat) -> Result<Seq<Vec2>, Seq<char>>
    decreases s.len(),
    via decode_from_decreases
{
    if s.len() == 0 {
        Ok(Seq::<Vec2>::empty())
    } else {
        let i = index_of(s, '\n');
        match parse_line(line_text(s, i), n) {
            Err(e) => Err(e),
            Ok(p) => if i >= s.len() {
                Ok(seq![p])
            } else {
                match decode_from(s.skip(i + 1), n + 1) {
                    Ok(rest) => Ok(seq![p] + rest),
                    Err(e) => Err(e),
                }
            },
        }
    }
}

/// What `decode` returns.
pub open spec fn decode_text(s: Seq<char>) -> Result<Seq<Vec2>, Seq<char>> {
    decode_from(s, 1)
}

pub proof fn lemma_index_from(s: Seq<char>, c: char, i: int)
    requires
        0 <= i <= s.len(),
    ensures
        i <= index_from(s, c, i) <= s.len(),
        index_from(s, c, i) < s.len() ==> s[index_from(s, c, i)] == c,
        forall|j: int| i <= j < index_from(s, c, i) ==> s[j] != c,
    decreases s.len() - i,
{
    if i < s.len() && s[i] != c {
        lemma_index_from(s, c, i + 1);
    }
}

proof fn lemma_index_from_shift(s: Seq<char>, c: char, start: int, j: int)
    requires
        0 <= start <= j <= s.len(),
    ensures
        index_from(s.skip(start), c, j - start) == index_from(s, c, j) - start,
    decreases s.len() - j,
{
    if j < s.len() {
        assert(s.skip(start)[j - start] == s[j]);
        if s[j] != c {
            lemma_index_from_shift(s, c, start, j + 1);
        }
    }
}

// ---------------------------------------------------------------- exec

/// Appends `fixed4(v)`.
fn push_fixed4(out: &mut Vec<char>, v: i64)
    ensures
        final(out)@ == old(out)@ + fixed4(v as int),
{
    let ghost start = out@;
    let m: u64 = if v < 0 {
        (-(v as i128)) as u64
    } else {
        v as u64
    };
    if v < 0 {
        out.push('-');
    }
    push_decimal(out, m / 10000);
    out.push('.');
    let f = m % 10000;
    out.push(digit_to_char(f / 1000));
    out.push(digit_to_char(f / 100));
    out.push(digit_to_char(f / 10));
    out.push(digit_to_char(f));
    proof {
        let sign = if v < 0 {
            seq!['-']
        } else {
            Seq::<char>::empty()
        };
        assert(out@ =~= start + (sign + decimal((m / 10000) as nat) + seq!['.'] + frac4(
            f as int,
        )));
    }
}

/// Stable insertion sort by x.
fn sort_by_x(data: &Vec<Vec2>) -> (r: Vec<Vec2>)
    ensures
        r@ == sort_x(data@),
{
    let mut out: Vec<Vec2> = Vec::new();
    let mut i: usize = 0;
    while i < data.len()
        invariant
            i <= data@.len(),
            out@ == sort_x(data@.take(i as int)),
        decreases data@.len() - i,
    {
        let p = data[i];
        let mut j: usize = 0;
        while j < out.len() && out[j].x <= p.x
            invariant
                j <= out@.len(),
                insert_pos(out@, p, 0) == insert_pos(out@, p, j as int),
            decreases out@.len() - j,
        {
            j = j + 1;
        }
        proof {
            let s = data@.take(i + 1);
            assert(s.drop_last() =~= data@.take(i as int));
            assert(s.last() == p);
        }
        out.insert(j, p);
        i = i + 1;
    }
    proof {
        assert(data@.take(i as int) =~= data@);
    }
    out
}

/// The text form of a point list: sorted by x, one `x:y` record per line,
/// each coordinate with four decimal places, every record ending in a
/// newline.
pub fn encode(data: Vec<Vec2>) -> (r: String)
    ensures
        r@ == encode_text(data@),
{
    let sorted = sort_by_x(&data);
    let mut out: Vec<char> = Vec::new();
    let mut i: usize = 0;
    proof {
        assert(sorted@.skip(0) =~= sorted@);
        assert(out@ + lines_text(sorted@) =~= lines_text(sorted@));
    }
    while i < sorted.len()
        invariant
            i <= sorted@.len(),
            out@ + lines_text(sorted@.skip(i as int)) == lines_text(sorted@),
        decreases sorted@.len() - i,
    {
        let ghost before = out@;
        let p = sorted[i];
        push_fixed4(&mut out, p.x);
        out.push(':');
        push_fixed4(&mut out, p.y);
        out.push('\n');
        proof {
            let rest = sorted@.skip(i as int);
            assert(rest[0] == p);
            assert(rest.drop_first() =~= sorted@.skip(i + 1));
            assert(out@ =~= before + point_line(p));
            assert(lines_text(rest) == point_line(p) + lines_text(rest.drop_first()));
            assert(out@ + lines_text(sorted@.skip(i + 1)) =~= before + lines_text(rest));
        }
        i = i + 1;
    }
    proof {
        assert(sorted@.skip(i as int) =~= Seq::<Vec2>::empty());
        assert(out@ + Seq::<char>::empty() =~= out@);
    }
    string_of(&out)
}

/// A prefix of points already read, before the outcome for the rest.
pub open spec fn prepend_ok(acc: Seq<Vec2>, r: Result<Seq<Vec2>, Seq<char>>) -> Result<
    Seq<Vec2>,
    Seq<char>,
> {
    match r {
        Ok(rest) => Ok(acc + rest),
        Err(e) => Err(e),
    }
}

/// Appends the reason a field did not parse.
fn push_fault(out: &mut Vec<char>, field: &Vec<char>)
    ensures
        final(out)@ == old(out)@ + number_fault(field@),
{
    if field.len() == 0 {
        push_str(out, "cannot parse float from empty string");
    } else {
        push_str(out, "invalid float literal");
    }
}

/// Reads one line, numbered `n`, as `parse_line` does.
fn read_line(l: &Vec<char>, n: usize) -> (r: Result<Vec2, Vec<char>>)
    ensures
        match r {
            Ok(p) => parse_line(l@, n as nat) == Ok::<Vec2, Seq<char>>(p),
            Err(e) => parse_line(l@, n as nat) == Err::<Vec2, Seq<char>>(e@),
        },
{
    let len = l.len();
    let colon = find_char(l, ':', 0);
    proof {
        lemma_index_from(l@, ':', 0);
    }
    let mut msg: Vec<char> = Vec::new();
    push_str(&mut msg, "line ");
    push_decimal(&mut msg, n as u64);
    let ghost head = msg@;
    if colon >= len {
        push_str(&mut msg, ": unexpected data ");
        push_chars(&mut msg, l);
        proof {
            assert(msg@ =~= head + ": unexpected data "@ + l@);
        }
        return Err(msg);
    }
    let xs = slice_chars(l, 0, colon);
    let ys = slice_chars(l, colon + 1, len);
    proof {
        assert(xs@ =~= l@.take(colon as int));
        assert(ys@ =~= l@.skip(colon + 1));
    }
    let x = parse_field(&xs);
    if x.is_none() {
        push_str(&mut msg, ": x is not float32: ");
        push_fault(&mut msg, &xs);
        push_str(&mut msg, " at ");
        push_chars(&mut msg, l);
        proof {
            assert(msg@ =~= head + ": x is not float32: "@ + number_fault(xs@) + " at "@ + l@);
        }
        return Err(msg);
    }
    let y = parse_field(&ys);
    if y.is_none() {
        push_str(&mut msg, ": y is not float32: ");
        push_fault(&mut msg, &ys);
        push_str(&mut msg, " at ");
        push_chars(&mut msg, l);
        proof {
            assert(msg@ =~= head + ": y is not float32: "@ + number_fault(ys@) + " at "@ + l@);
        }
        return Err(msg);
    }
    Ok(Vec2 { x: x.unwrap(), y: y.unwrap() })
}

/// Reads the text form back: one `x:y` record per line, each field a
/// decimal floating-point literal (sign, fraction and exponent optional)
/// whose value is rounded to the nearest unit. A line without `:`, or a
/// field that is no such literal or lies beyond `COORD_LIMIT`, stops the
/// reading with a message that names the line (counted from 1), the field
/// and the line's content; no points are returned then. Lines end at `\n`
/// or `\r\n`; a `\r` with no newline after it stays part of the line.
pub fn decode(data: String) -> (r: Result<Vec<Vec2>, String>)
    ensures
        match r {
            Ok(ps) => decode_text(data@) == Ok::<Seq<Vec2>, Seq<char>>(ps@),
            Err(e) => decode_text(data@) == Err::<Seq<Vec2>, Seq<char>>(e@),
        },
{
    let s = chars_of(data.as_str());
    let mut result: Vec<Vec2> = Vec::new();
    let mut start: usize = 0;
    let mut n: usize = 1;
    proof {
        assert(s@.skip(0) =~= s@);
        assert(result@ + Seq::<Vec2>::empty() =~= Seq::<Vec2>::empty());
        match decode_from(s@, 1) {
            Ok(rest) => {
                assert(result@ + rest =~= rest);
            },
            Err(e) => {},
        }
    }
    while start < s.len()
        invariant
            start <= s@.len(),
            1 <= n <= start + 1,
            s@ == data@,
            decode_text(data@) == prepend_ok(result@, decode_from(s@.skip(start as int), n as nat)),
        decreases s@.len() - start,
    {
        let i = find_char(&s, '\n', start);
        let ghost t = s@.skip(start as int);
        proof {
            lemma_index_from(s@, '\n', start as int);
            lemma_index_from_shift(s@, '\n', start as int, start as int);
            assert(index_of(t, '\n') == i - start);
        }
        let raw = slice_chars(&s, start, i);
        let rlen = raw.len();
        let line = if i < s.len() && rlen > 0 && raw[rlen - 1] == '\r' {
            slice_chars(&raw, 0, rlen - 1)
        } else {
            slice_chars(&raw, 0, rlen)
        };
        proof {
            assert(raw@ =~= t.take(i - start));
            if i < s.len() && rlen > 0 && raw@[rlen - 1] == '\r' {
                assert(line@ =~= raw@.drop_last());
            } else {
                assert(line@ =~= raw@);
            }
        }
        match read_line(&line, n) {
            Err(e) => {
                return Err(string_of(&e));
            },
            Ok(p) => {
                proof {
                    lemma_index_from(line@, ':', 0);
                }
                let ghost before = result@;
                result.push(p);
                if i >= s.len() {
                    proof {
                        assert(decode_from(t, n as nat) == Ok::<Seq<Vec2>, Seq<char>>(seq![p]));
                        assert(before + seq![p] =~= result@);
                    }
                    return Ok(result);
                }
                proof {
                    assert(t.skip(i - start + 1) =~= s@.skip(i + 1));
                    match decode_from(s@.skip(i + 1), (n + 1) as nat) {
                        Ok(rest) => {
                            assert(before + (seq![p] + rest) =~= result@ + rest);
                        },
                        Err(e) => {},
                    }
                }
                start = i + 1;
                n = n + 1;
            },
        }
    }
    proof {
        assert(s@.skip(start as int) =~= Seq::<char>::empty());
        assert(result@ + Seq::<Vec2>::empty() =~= result@);
    }
    Ok(result)
}

/// Every point that decoding yields is in range.
pub proof fn lemma_decode_in_range(s: Seq<char>, n: nat)
    requires
        decode_from(s, n) is Ok,
    ensures
        forall|i: int|
            0 <= i < decode_from(s, n)->Ok_0.len() ==> (#[trigger] decode_from(s, n)->Ok_0[i]).in_range(),
    decreases s.len(),
{
    if s.len() > 0 {
        let i = index_of(s, '\n');
        lemma_index_from(s, '\n', 0);
        let l = line_text(s, i);
        let colon = index_of(l, ':');
        crate::number::lemma_parse_units_in_range(l.take(colon));
        crate::number::lemma_parse_units_in_range(l.skip(colon + 1));
        if i < s.len() {
            lemma_decode_in_range(s.skip(i + 1), n + 1);
        }
    }
}

// ---------------------------------------------------------------- laws

proof fn lemma_insert_pos(s: Seq<Vec2>, p: Vec2, i: int)
    requires
        0 <= i <= s.len(),
        sorted_by_x(s),
    ensures
        i <= insert_pos(s, p, i) <= s.len(),
        forall|j: int| i <= j < insert_pos(s, p, i) ==> (#[trigger] s[j]).x <= p.x,
        forall|j: int| insert_pos(s, p, i) <= j < s.len() ==> (#[trigger] s[j]).x > p.x,
    decreases s.len() - i,
{
    if i < s.len() && s[i].x <= p.x {
        lemma_insert_pos(s, p, i + 1);
    }
}

/// Sorting keeps the points, as a multiset, and orders them by x.
pub proof fn lemma_sort_x(s: Seq<Vec2>)
    ensures
        sorted_by_x(sort_x(s)),
        sort_x(s).to_multiset() == s.to_multiset(),
        sort_x(s).len() == s.len(),
    decreases s.len(),
{
    broadcast use vstd::seq_lib::to_multiset_insert, vstd::seq_lib::to_multiset_build;

    if s.len() > 0 {
        let rest = sort_x(s.drop_last());
        let p = s.last();
        lemma_sort_x(s.drop_last());
        lemma_insert_pos(rest, p, 0);
        let k = insert_pos(rest, p, 0);
        let r = rest.insert(k, p);
        assert forall|a: int, b: int| 0 <= a <= b < r.len() implies r[a].x <= r[b].x by {
            if a < k && b < k {
                assert(r[a] == rest[a] && r[b] == rest[b]);
            } else if a < k && b == k {
                assert(r[a] == rest[a]);
            } else if a < k {
                assert(r[a] == rest[a] && r[b] == rest[b - 1]);
            } else if a == k && b > k {
                assert(r[b] == rest[b - 1]);
            } else if a > k {
                assert(r[a] == rest[a - 1] && r[b] == rest[b - 1]);
            }
        }
        assert(s == s.drop_last().push(p));
    }
}

/// `encode` writes the points ordered by x, whatever order they come in,
/// and no point is lost or added.
pub proof fn lemma_encode_sorted(data: Seq<Vec2>)
    ensures
        encode_text(data) == lines_text(sort_x(data)),
        sorted_by_x(sort_x(data)),
        sort_x(data).to_multiset() == data.to_multiset(),
{
    lemma_sort_x(data);
}

/// No two points share an x.
pub open spec fn distinct_x(s: Seq<Vec2>) -> bool {
    forall|i: int, j: int| 0 <= i < j < s.len() ==> s[i].x != s[j].x
}

proof fn lemma_sort_distinct(s: Seq<Vec2>)
    requires
        distinct_x(s),
    ensures
        distinct_x(sort_x(s)),
    decreases s.len(),
{
    if s.len() > 0 {
        let init = s.drop_last();
        let p = s.last();
        assert(distinct_x(init)) by {
            assert forall|i: int, j: int| 0 <= i < j < init.len() implies init[i].x != init[j].x by {
                assert(init[i] == s[i] && init[j] == s[j]);
            }
        }
        lemma_sort_distinct(init);
        lemma_sort_x(init);
        let rest = sort_x(init);
        assert forall|i: int| 0 <= i < rest.len() implies (#[trigger] rest[i]).x != p.x by {
            vstd::seq_lib::to_multiset_contains(rest, rest[i]);
            vstd::seq_lib::to_multiset_contains(init, rest[i]);
            assert(rest.contains(rest[i]));
            let j = choose|j: int| 0 <= j < init.len() && init[j] == rest[i];
            assert(init[j] == s[j]);
        }
        let k = insert_pos(rest, p, 0);
        lemma_insert_pos(rest, p, 0);
        let r = rest.insert(k, p);
        assert forall|a: int, b: int| 0 <= a < b < r.len() implies r[a].x != r[b].x by {
            if b < k {
                assert(r[a] == rest[a] && r[b] == rest[b]);
            } else if b == k {
                assert(r[a] == rest[a]);
            } else if a < k {
                assert(r[a] == rest[a] && r[b] == rest[b - 1]);
            } else if a == k {
                assert(r[b] == rest[b - 1]);
            } else {
                assert(r[a] == rest[a - 1] && r[b] == rest[b - 1]);
            }
        }
    }
}

proof fn lemma_sorted_unique(a: Seq<Vec2>, b: Seq<Vec2>)
    requires
        sorted_by_x(a),
        sorted_by_x(b),
        distinct_x(a),
        a.to_multiset() == b.to_multiset(),
    ensures
        a == b,
    decreases a.len(),
{
    vstd::seq_lib::to_multiset_len(a);
    vstd::seq_lib::to_multiset_len(b);
    if a.len() == 0 {
        assert(b.len() == 0);
        assert(a =~= b);
    } else {
        vstd::seq_lib::to_multiset_contains(a, b[0]);
        vstd::seq_lib::to_multiset_contains(b, b[0]);
        vstd::seq_lib::to_multiset_contains(a, a[0]);
        vstd::seq_lib::to_multiset_contains(b, a[0]);
        assert(b.contains(b[0]));
        assert(a.contains(a[0]));
        let k = choose|k: int| 0 <= k < a.len() && a[k] == b[0];
        let m = choose|m: int| 0 <= m < b.len() && b[m] == a[0];
        assert(a[0].x <= a[k].x);
        assert(b[0].x <= b[m].x);
        assert(k == 0);
        vstd::seq_lib::to_multiset_remove(a, 0);
        vstd::seq_lib::to_multiset_remove(b, 0);
        assert(a.remove(0) =~= a.drop_first());
        assert(b.remove(0) =~= b.drop_first());
        let a1 = a.drop_first();
        let b1 = b.drop_first();
        assert(sorted_by_x(a1)) by {
            assert forall|i: int, j: int| 0 <= i <= j < a1.len() implies a1[i].x <= a1[j].x by {
                assert(a1[i] == a[i + 1] && a1[j] == a[j + 1]);
            }
        }
        assert(sorted_by_x(b1)) by {
            assert forall|i: int, j: int| 0 <= i <= j < b1.len() implies b1[i].x <= b1[j].x by {
                assert(b1[i] == b[i + 1] && b1[j] == b[j + 1]);
            }
        }
        assert(distinct_x(a1)) by {
            assert forall|i: int, j: int| 0 <= i < j < a1.len() implies a1[i].x != a1[j].x by {
                assert(a1[i] == a[i + 1] && a1[j] == a[j + 1]);
            }
        }
        lemma_sorted_unique(a1, b1);
        assert(a =~= seq![a[0]] + a1);
        assert(b =~= seq![b[0]] + b1);
    }
}

/// When no two points share an x, `encode` writes the same text for every
/// order the points come in.
pub proof fn lemma_encode_order_free(a: Seq<Vec2>, b: Seq<Vec2>)
    requires
        a.to_multiset() == b.to_multiset(),
        distinct_x(a),
    ensures
        encode_text(a) == encode_text(b),
{
    lemma_sort_x(a);
    lemma_sort_x(b);
    lemma_sort_distinct(a);
    lemma_sorted_unique(sort_x(a), sort_x(b));
}

proof fn lemma_digit_char(m: int)
    ensures
        is_digit(digit_char(m)),
        digit_value(digit_char(m)) == m % 10,
{
}

proof fn lemma_decimal(n: nat)
    ensures
        decimal(n).len() >= 1,
        all_digits(decimal(n)),
        digits_value(decimal(n)) == n,
    decreases n,
{
    lemma_digit_char(n as int);
    vstd::arithmetic::div_mod::lemma_fundamental_div_mod(n as int, 10);
    if n >= 10 {
        lemma_decimal(n / 10);
        let d = decimal(n);
        assert(d.drop_last() == decimal(n / 10));
        assert(d.last() == digit_char(n as int));
        assert(digits_value(d) == digits_value(decimal(n / 10)) * 10 + digit_value(d.last()));
        assert forall|i: int| 0 <= i < d.len() implies is_digit(#[trigger] d[i]) by {
            if i < d.len() - 1 {
                assert(d[i] == decimal(n / 10)[i]);
            }
        }
    } else {
        let d = decimal(n);
        assert(d.drop_last() =~= Seq::<char>::empty());
        assert(digits_value(d.drop_last()) == 0);
        vstd::arithmetic::div_mod::lemma_small_mod(n, 10);
        assert(digits_value(d) == digits_value(d.drop_last()) * 10 + digit_value(d.last()));
    }
}

proof fn lemma_frac4(f: int)
    requires
        0 <= f < 10000,
    ensures
        frac4(f).len() == 4,
        all_digits(frac4(f)),
        digits_value(frac4(f)) == f,
{
    let s = frac4(f);
    lemma_digit_char(f / 1000);
    lemma_digit_char(f / 100);
    lemma_digit_char(f / 10);
    lemma_digit_char(f);
    let s0 = s.drop_last().drop_last().drop_last().drop_last();
    let s1 = s.drop_last().drop_last().drop_last();
    let s2 = s.drop_last().drop_last();
    let s3 = s.drop_last();
    assert(s0 =~= Seq::<char>::empty());
    assert(s1 =~= seq![digit_char(f / 1000)]);
    assert(s2 =~= seq![digit_char(f / 1000), digit_char(f / 100)]);
    assert(s3 =~= seq![digit_char(f / 1000), digit_char(f / 100), digit_char(f / 10)]);
    assert(digits_value(s0) == 0);
    assert(digits_value(s1) == (f / 1000) % 10);
    assert(digits_value(s2) == digits_value(s1) * 10 + (f / 100) % 10);
    assert(digits_value(s3) == digits_value(s2) * 10 + (f / 10) % 10);
    assert(digits_value(s) == digits_value(s3) * 10 + f % 10);
    vstd::arithmetic::div_mod::lemma_fundamental_div_mod(f, 10);
    vstd::arithmetic::div_mod::lemma_fundamental_div_mod(f / 10, 10);
    vstd::arithmetic::div_mod::lemma_fundamental_div_mod(f / 100, 10);
    vstd::arithmetic::div_mod::lemma_div_denominator(f, 10, 10);
    vstd::arithmetic::div_mod::lemma_div_denominator(f, 100, 10);
    assert(f / 1000 < 10);
    assert((f / 1000) % 10 == f / 1000);
}

/// The characters of `fixed4(v)` for a `v` in range.
proof fn lemma_fixed4_parts(v: int)
    requires
        0 <= v <= COORD_LIMIT,
    ensures
        fixed4(v) == decimal((v / 10000) as nat) + seq!['.'] + frac4(v % 10000),
        fixed4(v).len() > 0,
        is_digit(fixed4(v).last()),
        is_digit(fixed4(v)[0]),
        forall|j: int| 0 <= j < fixed4(v).len() ==> is_digit(#[trigger] fixed4(v)[j]) || fixed4(v)[j] == '.',
        parse_units(fixed4(v)) == Some(v),
{
    let n = (v / 10000) as nat;
    let f = v % 10000;
    let d = decimal(n);
    let s = fixed4(v);
    assert(s =~= d + seq!['.'] + frac4(f));
    lemma_decimal(n);
    lemma_frac4(f);
    let fr = frac4(f);
    assert(s[0] == d[0]);
    assert(s.last() == fr[3]);
    assert forall|j: int| 0 <= j < s.len() implies is_digit(#[trigger] s[j]) || s[j] == '.' by {
        if j < d.len() {
            assert(s[j] == d[j]);
        } else if j > d.len() {
            assert(s[j] == fr[j - d.len() - 1]);
        }
    }
    // parsing
    assert(!(s[0] == '-' || s[0] == '+'));
    crate::number::lemma_exp_none(s, 0);
    assert(s.take(s.len() as int) =~= s);
    assert forall|j: int| 0 <= j < d.len() implies s[j] != '.' by {
        assert(s[j] == d[j]);
    }
    lemma_index_at(s, '.', 0, d.len() as int);
    assert(s.take(d.len() as int) =~= d);
    assert(s.skip(d.len() as int + 1) =~= fr);
    assert(digits_value(Seq::<char>::empty()) == 0);
    lemma_digits_concat(d, fr);
    crate::number::lemma_pow10_4();
    vstd::arithmetic::div_mod::lemma_fundamental_div_mod(v, 10000);
    assert(crate::number::scaled(d + fr, d.len() as int + 4) == v);
}

/// The first `c` at or after `i` stands at `k`.
proof fn lemma_index_at(s: Seq<char>, c: char, i: int, k: int)
    requires
        0 <= i <= k <= s.len(),
        forall|j: int| i <= j < k ==> s[j] != c,
        k < s.len() ==> s[k] == c,
    ensures
        index_from(s, c, i) == k,
    decreases k - i,
{
    if i < k {
        lemma_index_at(s, c, i + 1, k);
    }
}

#[verifier::rlimit(40)]
#[verifier::spinoff_prover]
proof fn lemma_decode_lines(s: Seq<Vec2>, n: nat)
    requires
        in_unit_square(s),
    ensures
        decode_from(lines_text(s), n) == Ok::<Seq<Vec2>, Seq<char>>(s),
    decreases s.len(),
{
    if s.len() > 0 {
        let p = s[0];
        let rest = s.drop_first();
        assert forall|i: int| 0 <= i < rest.len() implies 0 <= (#[trigger] rest[i]).x <= SCALE
            && 0 <= rest[i].y <= SCALE by {
            assert(rest[i] == s[i + 1]);
        }
        lemma_decode_lines(rest, n + 1);
        lemma_fixed4_parts(p.x as int);
        lemma_fixed4_parts(p.y as int);
        let fx = fixed4(p.x as int);
        let fy = fixed4(p.y as int);
        let body = fx + seq![':'] + fy;
        let t = lines_text(s);
        assert(t == point_line(p) + lines_text(rest));
        assert(t =~= body + seq!['\n'] + lines_text(rest));
        assert forall|j: int| 0 <= j < body.len() implies t[j] != '\n' by {
            assert(t[j] == body[j]);
            if j < fx.len() {
                assert(body[j] == fx[j]);
            } else if j > fx.len() {
                assert(body[j] == fy[j - fx.len() - 1]);
            }
        }
        lemma_index_at(t, '\n', 0, body.len() as int);
        assert(t.take(body.len() as int) =~= body);
        assert(body.last() == fy.last());
        assert(strip_cr(body) == body);
        assert forall|j: int| 0 <= j < fx.len() implies body[j] != ':' by {
            assert(body[j] == fx[j]);
        }
        lemma_index_at(body, ':', 0, fx.len() as int);
        assert(body.take(fx.len() as int) =~= fx);
        assert(body.skip(fx.len() as int + 1) =~= fy);
        assert(parse_line(body, n) == Ok::<Vec2, Seq<char>>(Vec2 { x: p.x, y: p.y }));
        assert(t.skip(body.len() as int + 1) =~= lines_text(rest));
        assert(seq![p] + rest =~= s);
        assert(index_of(t, '\n') == body.len());
        assert(line_text(t, index_of(t, '\n')) == body);
        assert(index_of(t, '\n') < t.len());
        assert(decode_from(t.skip(index_of(t, '\n') + 1), n + 1) == Ok::<Seq<Vec2>, Seq<char>>(rest));
        assert(decode_from(t, n) == Ok::<Seq<Vec2>, Seq<char>>(seq![p] + rest));
    } else {
        assert(lines_text(s) =~= Seq::<char>::empty());
        assert(s =~= Seq::<Vec2>::empty());
    }
}

/// Decoding what `encode` wrote gives back the same points, as a multiset,
/// ordered by x, for coordinates in [0, 1] (each a whole number of units,
/// so four decimals represent it exactly).
pub proof fn lemma_round_trip(data: Seq<Vec2>)
    requires
        in_unit_square(data),
    ensures
        decode_text(encode_text(data)) == Ok::<Seq<Vec2>, Seq<char>>(sort_x(data)),
        sort_x(data).to_multiset() == data.to_multiset(),
        sorted_by_x(sort_x(data)),
{
    lemma_sort_x(data);
    let s = sort_x(data);
    assert forall|i: int| 0 <= i < s.len() implies 0 <= (#[trigger] s[i]).x <= SCALE && 0 <= s[i].y
        <= SCALE by {
        vstd::seq_lib::to_multiset_contains(s, s[i]);
        vstd::seq_lib::to_multiset_contains(data, s[i]);
        assert(s.contains(s[i]));
        let j = choose|j: int| 0 <= j < data.len() && data[j] == s[i];
        assert(data[j] == s[i]);
    }
    lemma_decode_lines(s, 1);
}

} // verus!
