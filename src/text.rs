//! Field splitting and decimal numbers over ASCII text.
//!
//! The specifications speak of a record's characters; the executable
//! functions read the record's bytes, which for ASCII text are the same
//! values.

use vstd::prelude::*;
use vstd::string::StrSliceExecFns;

verus! {

/// Index of the first occurrence of `c` in `s`, or `s.len()` if none.
pub open spec fn first_index(s: Seq<char>, c: char) -> int
    decreases s.len(),
{
    if s.len() == 0 {
        0
    } else if s[0] == c {
        0
    } else {
        1 + first_index(s.drop_first(), c)
    }
}

/// Splits at the first `c`: the part before it, and the part after it if
/// there is a `c` at all.
pub open spec fn split_once(s: Seq<char>, c: char) -> (Seq<char>, Option<Seq<char>>) {
    let i = first_index(s, c);
    if 0 <= i < s.len() {
        (s.subrange(0, i), Some(s.subrange(i + 1, s.len() as int)))
    } else {
        (s, None)
    }
}

/// All fields of `s` separated by `c` (at least one, possibly empty).
pub open spec fn split(s: Seq<char>, c: char) -> Seq<Seq<char>>
    decreases s.len(),
{
    let i = first_index(s, c);
    if 0 <= i < s.len() {
        seq![s.subrange(0, i)] + split(s.subrange(i + 1, s.len() as int), c)
    } else {
        seq![s]
    }
}

/// What remains after the first `k` separators, if `s` has that many.
pub open spec fn skip_fields(s: Seq<char>, c: char, k: nat) -> Option<Seq<char>>
    decreases k,
{
    if k == 0 {
        Some(s)
    } else {
        match split_once(s, c).1 {
            Some(rest) => skip_fields(rest, c, (k - 1) as nat),
            None => None,
        }
    }
}

/// Field number `k` (from zero) of `s`, if it has that many.
pub open spec fn nth_field(s: Seq<char>, c: char, k: nat) -> Option<Seq<char>> {
    match skip_fields(s, c, k) {
        Some(rest) => Some(split_once(rest, c).0),
        None => None,
    }
}

pub open spec fn is_digit(c: char) -> bool {
    '0' <= c <= '9'
}

pub open spec fn all_digits(s: Seq<char>) -> bool {
    forall|i: int| 0 <= i < s.len() ==> is_digit(#[trigger] s[i])
}

/// Decimal value of a string of digits.
pub open spec fn digits_value(s: Seq<char>) -> nat
    decreases s.len(),
{
    if s.len() == 0 {
        0
    } else {
        digits_value(s.drop_last()) * 10 + ((s.last() as u32) - 48) as nat
    }
}

/// An unsigned decimal as `usize` parses it: an optional `+`, then at least
/// one digit, and a value that fits.
pub open spec fn parse_decimal(s: Seq<char>) -> Option<usize> {
    let d = if s.len() > 0 && s[0] == '+' {
        s.drop_first()
    } else {
        s
    };
    if d.len() > 0 && all_digits(d) && digits_value(d) <= usize::MAX {
        Some(digits_value(d) as usize)
    } else {
        None
    }
}

/// ASCII whitespace as `char::is_whitespace` sees it.
pub open spec fn is_ascii_space(c: char) -> bool {
    c == ' ' || c == '\t' || c == '\n' || c == '\u{b}' || c == '\u{c}' || c == '\r'
}

/// `b` holds the bytes of the ASCII text `s`.
pub open spec fn ascii_bytes(b: Seq<u8>, s: Seq<char>) -> bool {
    &&& b.len() == s.len()
    &&& forall|i: int| 0 <= i < s.len() ==> '\0' <= #[trigger] s[i] <= '\u{7f}'
    &&& forall|i: int| 0 <= i < s.len() ==> #[trigger] b[i] == s[i] as u8
}

pub proof fn lemma_ascii_byte(c: char)
    requires
        '\0' <= c <= '\u{7f}',
    ensures
        (c as u8) as u32 == c as u32,
{
}

pub proof fn lemma_ascii_eq(c: char, d: char)
    requires
        '\0' <= c <= '\u{7f}',
        '\0' <= d <= '\u{7f}',
    ensures
        (c as u8 == d as u8) == (c == d),
{
}

/// The first index is the first position holding `c`.
pub proof fn lemma_first_index(t: Seq<char>, c: char, k: int)
    requires
        0 <= k <= t.len(),
        forall|j: int| 0 <= j < k ==> t[j] != c,
        k == t.len() || t[k] == c,
    ensures
        first_index(t, c) == k,
    decreases t.len(),
{
    if t.len() > 0 && t[0] != c {
        lemma_first_index(t.drop_first(), c, k - 1);
    }
}

/// Position of the first `c` in `b[from..end]`, or `end`.
pub fn find_byte(b: &[u8], from: usize, end: usize, c: char, Ghost(s): Ghost<Seq<char>>) -> (r:
    usize)
    requires
        from <= end <= b@.len(),
        ascii_bytes(b@, s),
        '\0' <= c <= '\u{7f}',
    ensures
        from <= r <= end,
        first_index(s.subrange(from as int, end as int), c) == r - from,
{
    let sep = c as u8;
    let mut i = from;
    while i < end && b[i] != sep
        invariant
            from <= i <= end <= b@.len(),
            ascii_bytes(b@, s),
            '\0' <= c <= '\u{7f}',
            sep == c as u8,
            forall|j: int| from <= j < i ==> s[j] != c,
        decreases end - i,
    {
        proof {
            lemma_ascii_eq(s[i as int], c);
        }
        i = i + 1;
    }
    proof {
        let t = s.subrange(from as int, end as int);
        if i < end {
            lemma_ascii_eq(s[i as int], c);
        }
        lemma_first_index(t, c, i - from);
    }
    i
}

/// Parses `s[from..end]` with `parse_decimal`.
pub fn parse_decimal_at(b: &[u8], from: usize, end: usize, Ghost(s): Ghost<Seq<char>>) -> (r:
    Option<usize>)
    requires
        from <= end <= b@.len(),
        ascii_bytes(b@, s),
    ensures
        r == parse_decimal(s.subrange(from as int, end as int)),
{
    let ghost t = s.subrange(from as int, end as int);
    let mut start = from;
    if from < end && b[from] == 43u8 {
        proof {
            lemma_ascii_eq(s[from as int], '+');
        }
        start = from + 1;
    } else if from < end {
        proof {
            lemma_ascii_eq(s[from as int], '+');
        }
    }
    let ghost d = s.subrange(start as int, end as int);
    assert(d =~= (if t.len() > 0 && t[0] == '+' {
        t.drop_first()
    } else {
        t
    }));
    if start == end {
        return None;
    }
    let mut value: usize = 0;
    let mut i = start;
    while i < end
        invariant
            start <= i <= end <= b@.len(),
            ascii_bytes(b@, s),
            d == s.subrange(start as int, end as int),
            t == s.subrange(from as int, end as int),
            d == (if t.len() > 0 && t[0] == '+' {
                t.drop_first()
            } else {
                t
            }),
            all_digits(s.subrange(start as int, i as int)),
            value as nat == digits_value(s.subrange(start as int, i as int)),
        decreases end - i,
    {
        let byte = b[i];
        proof {
            lemma_ascii_byte(s[i as int]);
            assert(d[i - start] == s[i as int]);
        }
        if byte < 48u8 || byte > 57u8 {
            proof {
                assert(!is_digit(d[i - start]));
            }
            return None;
        }
        let ghost p = s.subrange(start as int, i + 1);
        proof {
            assert(p.drop_last() =~= s.subrange(start as int, i as int));
            assert(is_digit(s[i as int]));
            assert(all_digits(p));
        }
        let digit = (byte - 48u8) as usize;
        match value.checked_mul(10) {
            Some(m) => match m.checked_add(digit) {
                Some(v) => {
                    value = v;
                },
                None => {
                    proof {
                        lemma_prefix_value_le(d, i + 1 - start);
                        assert(d.subrange(0, i + 1 - start) =~= p);
                    }
                    return None;
                },
            },
            None => {
                proof {
                    lemma_prefix_value_le(d, i + 1 - start);
                    assert(d.subrange(0, i + 1 - start) =~= p);
                }
                return None;
            },
        }
        i = i + 1;
    }
    assert(s.subrange(start as int, i as int) =~= d);
    Some(value)
}

/// A prefix of a string of digits has no greater value, when the whole is
/// made of digits up to that prefix or beyond.
proof fn lemma_prefix_value_le(d: Seq<char>, k: int)
    requires
        0 <= k <= d.len(),
    ensures
        all_digits(d) ==> digits_value(d.subrange(0, k)) <= digits_value(d),
    decreases d.len() - k,
{
    if k < d.len() && all_digits(d) {
        lemma_prefix_value_le(d, k + 1);
        let p = d.subrange(0, k + 1);
        assert(p.drop_last() =~= d.subrange(0, k));
        assert(is_digit(p.last()));
    }
    if k == d.len() {
        assert(d.subrange(0, k) =~= d);
    }
}

/// Start of what remains of `s[from..end]` after its first `k` separators.
pub fn skip_fields_at(
    b: &[u8],
    from: usize,
    end: usize,
    c: char,
    k: usize,
    Ghost(s): Ghost<Seq<char>>,
) -> (r: Option<usize>)
    requires
        from <= end <= b@.len(),
        ascii_bytes(b@, s),
        '\0' <= c <= '\u{7f}',
    ensures
        match r {
            Some(p) => from <= p <= end && skip_fields(
                s.subrange(from as int, end as int),
                c,
                k as nat,
            ) == Some(s.subrange(p as int, end as int)),
            None => skip_fields(s.subrange(from as int, end as int), c, k as nat).is_none(),
        },
{
    let mut pos = from;
    let mut left = k;
    while left > 0
        invariant
            from <= pos <= end <= b@.len(),
            ascii_bytes(b@, s),
            '\0' <= c <= '\u{7f}',
            skip_fields(s.subrange(from as int, end as int), c, k as nat) == skip_fields(
                s.subrange(pos as int, end as int),
                c,
                left as nat,
            ),
        decreases left,
    {
        let i = find_byte(b, pos, end, c, Ghost(s));
        let ghost t = s.subrange(pos as int, end as int);
        if i == end {
            return None;
        }
        proof {
            assert(t.subrange(i - pos + 1, t.len() as int) =~= s.subrange(i + 1, end as int));
        }
        pos = i + 1;
        left = left - 1;
    }
    Some(pos)
}

/// Bounds of field number `k` of `s[from..end]`, if it has that many.
pub fn nth_field_at(
    b: &[u8],
    from: usize,
    end: usize,
    c: char,
    k: usize,
    Ghost(s): Ghost<Seq<char>>,
) -> (r: Option<(usize, usize)>)
    requires
        from <= end <= b@.len(),
        ascii_bytes(b@, s),
        '\0' <= c <= '\u{7f}',
    ensures
        match r {
            Some((p, e)) => from <= p <= e <= end && nth_field(
                s.subrange(from as int, end as int),
                c,
                k as nat,
            ) == Some(s.subrange(p as int, e as int)),
            None => nth_field(s.subrange(from as int, end as int), c, k as nat).is_none(),
        },
{
    match skip_fields_at(b, from, end, c, k, Ghost(s)) {
        None => None,
        Some(p) => {
            let e = find_byte(b, p, end, c, Ghost(s));
            proof {
                let rest = s.subrange(p as int, end as int);
                assert(rest.subrange(0, e - p) =~= s.subrange(p as int, e as int));
                if e == end {
                    assert(rest =~= s.subrange(p as int, e as int));
                }
            }
            Some((p, e))
        },
    }
}

/// Decimal digit character of a value below ten.
pub open spec fn decimal_digit(d: nat) -> char {
    ((d + 48) as u8) as char
}

/// Decimal rendering of `n` without leading zeros ("0" for zero).
pub open spec fn decimal_of(n: nat) -> Seq<char>
    decreases n,
{
    if n < 10 {
        seq![decimal_digit(n)]
    } else {
        decimal_of(n / 10).push(decimal_digit(n % 10))
    }
}

/// `decimal_of(n)` with zeros in front up to `width` characters.
pub open spec fn padded_decimal(n: nat, width: nat) -> Seq<char> {
    let d = decimal_of(n);
    if d.len() >= width {
        d
    } else {
        Seq::new((width - d.len()) as nat, |i: int| '0') + d
    }
}

fn decimal_digit_str(d: u64) -> (r: &'static str)
    requires
        d < 10,
    ensures
        r@ == seq![decimal_digit(d as nat)],
{
    proof {
        reveal_strlit("0");
        reveal_strlit("1");
        reveal_strlit("2");
        reveal_strlit("3");
        reveal_strlit("4");
        reveal_strlit("5");
        reveal_strlit("6");
        reveal_strlit("7");
        reveal_strlit("8");
        reveal_strlit("9");
    }
    match d {
        0 => "0",
        1 => "1",
        2 => "2",
        3 => "3",
        4 => "4",
        5 => "5",
        6 => "6",
        7 => "7",
        8 => "8",
        _ => "9",
    }
}

/// Appends the decimal text of `n` to `out`.
pub fn push_decimal(out: &mut String, n: u64)
    ensures
        final(out)@ == old(out)@ + decimal_of(n as nat),
{
    // digits are collected least significant first
    let mut digits: Vec<u64> = Vec::new();
    let mut m: u64 = n;
    loop
        invariant
            m <= n,
            decimal_of(n as nat) == decimal_of(m as nat) + Seq::new(
                digits@.len(),
                |k: int| decimal_digit(digits@[digits@.len() - 1 - k] as nat),
            ),
            forall|k: int| 0 <= k < digits@.len() ==> digits@[k] < 10,
        ensures
            m < 10,
            decimal_of(n as nat) == decimal_of(m as nat) + Seq::new(
                digits@.len(),
                |k: int| decimal_digit(digits@[digits@.len() - 1 - k] as nat),
            ),
            forall|k: int| 0 <= k < digits@.len() ==> digits@[k] < 10,
        decreases m,
    {
        if m < 10 {
            break;
        }
        let d = m % 10;
        proof {
            let old_tail = Seq::new(
                digits@.len(),
                |k: int| decimal_digit(digits@[digits@.len() - 1 - k] as nat),
            );
            let nd = digits@.push(d);
            let new_tail = Seq::new(nd.len(), |k: int| decimal_digit(nd[nd.len() - 1 - k] as nat));
            assert(new_tail =~= seq![decimal_digit(d as nat)] + old_tail);
            assert(decimal_of(m as nat) == decimal_of((m / 10) as nat).push(
                decimal_digit((m % 10) as nat),
            ));
            assert(decimal_of((m / 10) as nat).push(decimal_digit(d as nat)) + old_tail
                =~= decimal_of((m / 10) as nat) + new_tail);
        }
        digits.push(d);
        m = m / 10;
    }
    let ghost start = out@;
    out.append(decimal_digit_str(m));
    let mut j: usize = digits.len();
    while j > 0
        invariant
            j <= digits@.len(),
            forall|k: int| 0 <= k < digits@.len() ==> digits@[k] < 10,
            decimal_of(n as nat) == decimal_of(m as nat) + Seq::new(
                digits@.len(),
                |k: int| decimal_digit(digits@[digits@.len() - 1 - k] as nat),
            ),
            m < 10,
            out@ == start + decimal_of(m as nat) + Seq::new(
                (digits@.len() - j) as nat,
                |k: int| decimal_digit(digits@[digits@.len() - 1 - k] as nat),
            ),
        decreases j,
    {
        j = j - 1;
        let piece = decimal_digit_str(digits[j]);
        proof {
            let prev = Seq::new(
                (digits@.len() - j - 1) as nat,
                |k: int| decimal_digit(digits@[digits@.len() - 1 - k] as nat),
            );
            let next = Seq::new(
                (digits@.len() - j) as nat,
                |k: int| decimal_digit(digits@[digits@.len() - 1 - k] as nat),
            );
            assert(next =~= prev + seq![decimal_digit(digits@[j as int] as nat)]);
        }
        out.append(piece);
        proof {
            assert(out@ =~= start + decimal_of(m as nat) + Seq::new(
                (digits@.len() - j) as nat,
                |k: int| decimal_digit(digits@[digits@.len() - 1 - k] as nat),
            ));
        }
    }
    proof {
        assert(out@ =~= start + decimal_of(n as nat));
    }
}

/// Appends the decimal text of `n`, with zeros in front up to `width`.
pub fn push_padded_decimal(out: &mut String, n: u64, width: usize)
    ensures
        final(out)@ == old(out)@ + padded_decimal(n as nat, width as nat),
{
    let mut digits = String::new();
    push_decimal(&mut digits, n);
    assert(digits@ =~= decimal_of(n as nat));
    let len = digits.unicode_len();
    let ghost start = out@;
    let mut k: usize = len;
    while k < width
        invariant
            len == decimal_of(n as nat).len(),
            len <= k <= width || (width < len && k == len),
            out@ == start + Seq::new((k - len) as nat, |i: int| '0'),
        decreases width - k,
    {
        proof {
            reveal_strlit("0");
        }
        out.append("0");
        k = k + 1;
        assert(out@ =~= start + Seq::new((k - len) as nat, |i: int| '0'));
    }
    out.append(digits.as_str());
    proof {
        if len >= width {
            assert(k == len);
            assert(out@ =~= start + decimal_of(n as nat));
        } else {
            assert(out@ =~= start + padded_decimal(n as nat, width as nat));
        }
    }
}

} // verus!
