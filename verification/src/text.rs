//! Text as sequences of characters: trimming, splitting, prefixes and decimal
//! numbers, each with the mathematical description its callers speak of.

use vstd::prelude::*;

verus! {

/// `String::push` appends one character.
pub assume_specification[ String::push ](s: &mut String, c: char)
    ensures
        final(s)@ == old(s)@.push(c),
;

// --- Whole strings -----------------------------------------------------------

/// The characters of `s`, in order.
pub fn chars_of(s: &str) -> (out: Vec<char>)
    ensures
        out@ == s@,
{
    let mut out: Vec<char> = Vec::new();
    for c in it: s.chars()
        invariant
            it.seq() == s@,
            out@ == s@.take(it.index() as int),
    {
        proof {
            assert(s@.take(it.index() as int + 1) =~= s@.take(it.index() as int).push(c));
        }
        out.push(c);
    }
    assert(s@.take(s@.len() as int) =~= s@);
    out
}

/// The string made of the characters `from..to` of `chars`.
pub fn string_of(chars: &[char], from: usize, to: usize) -> (out: String)
    requires
        from <= to <= chars@.len(),
    ensures
        out@ == chars@.subrange(from as int, to as int),
{
    let mut out = String::new();
    let mut i: usize = from;
    while i < to
        invariant
            from <= i <= to <= chars@.len(),
            out@ == chars@.subrange(from as int, i as int),
        decreases to - i,
    {
        out.push(chars[i]);
        i += 1;
        assert(chars@.subrange(from as int, i as int) =~= chars@.subrange(
            from as int,
            i as int - 1,
        ).push(chars@[i as int - 1]));
    }
    out
}

/// An owned copy of `s`.
pub fn owned(s: &str) -> (out: String)
    ensures
        out@ == s@,
{
    s.to_owned()
}

/// Do the two strings hold the same characters?
pub fn same_text(a: &str, b: &str) -> (r: bool)
    ensures
        r == (a@ == b@),
{
    let x = chars_of(a);
    let y = chars_of(b);
    same_chars(&x, &y)
}

/// Do the two slices hold the same characters?
pub fn same_chars(a: &[char], b: &[char]) -> (r: bool)
    ensures
        r == (a@ == b@),
{
    if a.len() != b.len() {
        return false;
    }
    let mut i: usize = 0;
    while i < a.len()
        invariant
            a@.len() == b@.len(),
            i <= a@.len(),
            forall|j: int| 0 <= j < i ==> a@[j] == b@[j],
        decreases a@.len() - i,
    {
        if a[i] != b[i] {
            return false;
        }
        i += 1;
    }
    assert(a@ =~= b@);
    true
}

// --- Prefixes and suffixes ---------------------------------------------------

pub open spec fn has_prefix(s: Seq<char>, p: Seq<char>) -> bool {
    p.len() <= s.len() && s.take(p.len() as int) == p
}

pub open spec fn has_suffix(s: Seq<char>, p: Seq<char>) -> bool {
    p.len() <= s.len() && s.skip(s.len() - p.len()) == p
}

/// Does `chars[at..]` start with `p`?
pub fn prefix_at(chars: &[char], at: usize, p: &[char]) -> (r: bool)
    requires
        at <= chars@.len(),
    ensures
        r == has_prefix(chars@.skip(at as int), p@),
{
    if chars.len() - at < p.len() {
        return false;
    }
    let ghost rest = chars@.skip(at as int);
    let mut i: usize = 0;
    while i < p.len()
        invariant
            at + p.len() <= chars.len(),
            i <= p@.len(),
            rest == chars@.skip(at as int),
            forall|j: int| 0 <= j < i ==> rest[j] == p@[j],
        decreases p@.len() - i,
    {
        assert(rest[i as int] == chars@[at + i]);
        if chars[at + i] != p[i] {
            assert(rest.take(p@.len() as int)[i as int] != p@[i as int]);
            return false;
        }
        i += 1;
    }
    assert(rest.take(p@.len() as int) =~= p@);
    true
}

/// `s` without the prefix `p`, if it starts with it.
pub fn strip_prefix<'a>(s: &'a str, p: &str) -> (r: Option<&'a str>)
    ensures
        match r {
            Some(rest) => has_prefix(s@, p@) && rest@ == s@.skip(p@.len() as int),
            None => !has_prefix(s@, p@),
        },
{
    let sc = chars_of(s);
    let pc = chars_of(p);
    assert(sc@.skip(0) =~= sc@);
    if prefix_at(&sc, 0, &pc) {
        assert(s@.subrange(pc@.len() as int, s@.len() as int) =~= s@.skip(pc@.len() as int));
        Some(s.substring_char(pc.len(), sc.len()))
    } else {
        None
    }
}

// --- White space -------------------------------------------------------------

/// The code points with the Unicode `White_Space` property.
pub open spec fn is_space(c: char) -> bool {
    let u = c as u32;
    ||| 0x09 <= u <= 0x0d
    ||| u == 0x20
    ||| u == 0x85
    ||| u == 0xa0
    ||| u == 0x1680
    ||| 0x2000 <= u <= 0x200a
    ||| u == 0x2028
    ||| u == 0x2029
    ||| u == 0x202f
    ||| u == 0x205f
    ||| u == 0x3000
}

fn space(c: char) -> (r: bool)
    ensures
        r == is_space(c),
{
    let u: u32 = c as u32;
    (0x09 <= u && u <= 0x0d) || u == 0x20 || u == 0x85 || u == 0xa0 || u == 0x1680 || (0x2000 <= u
        && u <= 0x200a) || u == 0x2028 || u == 0x2029 || u == 0x202f || u == 0x205f || u == 0x3000
}

/// `s` without its leading white space.
pub open spec fn trim_start(s: Seq<char>) -> Seq<char>
    decreases s.len(),
{
    if s.len() > 0 && is_space(s.first()) {
        trim_start(s.drop_first())
    } else {
        s
    }
}

/// `s` without its trailing white space.
pub open spec fn trim_end(s: Seq<char>) -> Seq<char>
    decreases s.len(),
{
    if s.len() > 0 && is_space(s.last()) {
        trim_end(s.drop_last())
    } else {
        s
    }
}

/// `s` without the white space around it.
pub open spec fn trimmed(s: Seq<char>) -> Seq<char> {
    trim_end(trim_start(s))
}

/// `s` without its trailing occurrences of `c`.
pub open spec fn trim_end_char(s: Seq<char>, c: char) -> Seq<char>
    decreases s.len(),
{
    if s.len() > 0 && s.last() == c {
        trim_end_char(s.drop_last(), c)
    } else {
        s
    }
}

/// The bounds of `chars[from..to]` once the white space around it is dropped.
pub fn trim_bounds(chars: &[char], from: usize, to: usize) -> (r: (usize, usize))
    requires
        from <= to <= chars@.len(),
    ensures
        from <= r.0 <= r.1 <= to,
        chars@.subrange(r.0 as int, r.1 as int) == trimmed(
            chars@.subrange(from as int, to as int),
        ),
{
    let ghost whole = chars@.subrange(from as int, to as int);
    let mut lo: usize = from;
    while lo < to && space(chars[lo])
        invariant
            from <= lo <= to <= chars@.len(),
            whole == chars@.subrange(from as int, to as int),
            trim_start(whole) == trim_start(chars@.subrange(lo as int, to as int)),
        decreases to - lo,
    {
        let ghost cur = chars@.subrange(lo as int, to as int);
        lo += 1;
        assert(cur.drop_first() =~= chars@.subrange(lo as int, to as int));
    }
    let ghost head = chars@.subrange(lo as int, to as int);
    assert(trim_start(whole) == head);
    let mut hi: usize = to;
    while lo < hi && space(chars[hi - 1])
        invariant
            from <= lo <= hi <= to <= chars@.len(),
            trim_end(head) == trim_end(chars@.subrange(lo as int, hi as int)),
        decreases hi - lo,
    {
        let ghost cur = chars@.subrange(lo as int, hi as int);
        hi -= 1;
        assert(cur.drop_last() =~= chars@.subrange(lo as int, hi as int));
    }
    (lo, hi)
}

/// `s` without the white space around it.
pub fn trim(s: &str) -> (r: &str)
    ensures
        r@ == trimmed(s@),
{
    let c = chars_of(s);
    let (lo, hi) = trim_bounds(&c, 0, c.len());
    assert(c@.subrange(0, c@.len() as int) =~= s@);
    s.substring_char(lo, hi)
}

// --- Splitting ---------------------------------------------------------------

/// `s` cut at the first `c`, which belongs to neither part.
pub open spec fn cut_first(s: Seq<char>, c: char) -> Option<(Seq<char>, Seq<char>)> {
    match s.index_of_first(c) {
        Some(i) => Some((s.take(i), s.skip(i + 1))),
        None => None,
    }
}

/// `s` cut at the last `c`, which belongs to neither part.
pub open spec fn cut_last(s: Seq<char>, c: char) -> Option<(Seq<char>, Seq<char>)> {
    match s.index_of_last(c) {
        Some(i) => Some((s.take(i), s.skip(i + 1))),
        None => None,
    }
}

/// Where a string is cut at its first `c`: the only place it can be.
pub proof fn lemma_cut_first(s: Seq<char>, c: char, i: int)
    requires
        0 <= i < s.len(),
        s[i] == c,
        forall|j: int| 0 <= j < i ==> s[j] != c,
    ensures
        cut_first(s, c) == Some((s.take(i), s.skip(i + 1))),
{
    s.index_of_first_ensures(c);
    assert(s.contains(c));
    let k = s.index_of_first(c)->0;
    if k < i {
        assert(s[k] != c);
    } else if i < k {
        assert(s[i] != c);
    }
}

/// Where a string is cut at its last `c`: the only place it can be.
pub proof fn lemma_cut_last(s: Seq<char>, c: char, i: int)
    requires
        0 <= i < s.len(),
        s[i] == c,
        forall|j: int| i < j < s.len() ==> s[j] != c,
    ensures
        cut_last(s, c) == Some((s.take(i), s.skip(i + 1))),
{
    s.index_of_last_ensures(c);
    assert(s.contains(c));
    let k = s.index_of_last(c)->0;
    if k < i {
        assert(s[i] != c);
    } else if i < k {
        assert(s[k] != c);
    }
}

/// A string without a `c` is not cut.
pub proof fn lemma_uncut(s: Seq<char>, c: char)
    requires
        forall|j: int| 0 <= j < s.len() ==> s[j] != c,
    ensures
        cut_first(s, c) is None,
        cut_last(s, c) is None,
{
    s.index_of_first_ensures(c);
    s.index_of_last_ensures(c);
    assert(!s.contains(c));
}

/// `s` cut at the first `c`.
pub fn split_once<'a>(s: &'a str, c: char) -> (r: Option<(&'a str, &'a str)>)
    ensures
        match r {
            Some((a, b)) => cut_first(s@, c) == Some((a@, b@)),
            None => cut_first(s@, c) is None,
        },
{
    let cs = chars_of(s);
    let mut i: usize = 0;
    while i < cs.len()
        invariant
            i <= cs@.len(),
            cs@ == s@,
            forall|j: int| 0 <= j < i ==> s@[j] != c,
        decreases cs@.len() - i,
    {
        if cs[i] == c {
            proof {
                lemma_cut_first(s@, c, i as int);
                assert(s@.subrange(0, i as int) =~= s@.take(i as int));
                assert(s@.subrange(i as int + 1, s@.len() as int) =~= s@.skip(i as int + 1));
            }
            return Some((s.substring_char(0, i), s.substring_char(i + 1, cs.len())));
        }
        i += 1;
    }
    proof {
        lemma_uncut(s@, c);
    }
    None
}

/// `s` cut at the last `c`.
pub fn rsplit_once<'a>(s: &'a str, c: char) -> (r: Option<(&'a str, &'a str)>)
    ensures
        match r {
            Some((a, b)) => cut_last(s@, c) == Some((a@, b@)),
            None => cut_last(s@, c) is None,
        },
{
    let cs = chars_of(s);
    let mut i: usize = cs.len();
    while i > 0
        invariant
            i <= cs@.len(),
            cs@ == s@,
            forall|j: int| i <= j < s@.len() ==> s@[j] != c,
        decreases i,
    {
        i -= 1;
        if cs[i] == c {
            proof {
                lemma_cut_last(s@, c, i as int);
                assert(s@.subrange(0, i as int) =~= s@.take(i as int));
                assert(s@.subrange(i as int + 1, s@.len() as int) =~= s@.skip(i as int + 1));
            }
            return Some((s.substring_char(0, i), s.substring_char(i + 1, cs.len())));
        }
    }
    proof {
        lemma_uncut(s@, c);
    }
    None
}

/// The parts of `s` between the occurrences of `c`; never empty.
pub open spec fn pieces(s: Seq<char>, c: char) -> Seq<Seq<char>>
    decreases s.len(),
{
    match cut_last(s, c) {
        Some((head, tail)) => if head.len() < s.len() {
            pieces(head, c).push(tail)
        } else {
            seq![s]
        },
        None => seq![s],
    }
}

/// What a vector of strings holds.
pub open spec fn texts(v: Seq<String>) -> Seq<Seq<char>> {
    Seq::new(v.len(), |i: int| v[i]@)
}

/// The parts of `s` between the occurrences of `c`.
pub fn split(s: &str, c: char) -> (out: Vec<String>)
    ensures
        texts(out@) == pieces(s@, c),
{
    let cs = chars_of(s);
    let mut out: Vec<String> = Vec::new();
    let mut start: usize = 0;
    let mut i: usize = 0;
    while i < cs.len()
        invariant
            start <= i <= cs@.len(),
            cs@ == s@,
            forall|j: int| start <= j < i ==> s@[j] != c,
            start == 0 ==> out@.len() == 0,
            start > 0 ==> s@[start - 1] == c && texts(out@) == pieces(s@.take(start - 1), c),
        decreases cs@.len() - i,
    {
        if cs[i] == c {
            let ghost before = out@;
            out.push(string_of(&cs, start, i));
            proof {
                lemma_last_piece(s@.take(i as int), c, start as int);
                if start > 0 {
                    assert(s@.take(i as int).take(start - 1) =~= s@.take(start - 1));
                }
                assert(s@.take(i as int).skip(start as int) =~= s@.subrange(
                    start as int,
                    i as int,
                ));
                assert(texts(out@) =~= texts(before).push(out@.last()@));
                assert(texts(out@) =~= pieces(s@.take(i as int), c));
                assert(s@.take(i + 1 - 1) =~= s@.take(i as int));
            }
            start = i + 1;
        }
        i += 1;
    }
    let ghost before = out@;
    out.push(string_of(&cs, start, cs.len()));
    proof {
        lemma_last_piece(s@, c, start as int);
        assert(s@.skip(start as int) =~= s@.subrange(start as int, s@.len() as int));
        assert(texts(out@) =~= texts(before).push(out@.last()@));
        assert(texts(out@) =~= pieces(s@, c));
    }
    out
}

pub proof fn lemma_last_piece(s: Seq<char>, c: char, start: int)
    requires
        0 <= start <= s.len(),
        start > 0 ==> s[start - 1] == c,
        forall|j: int| start <= j < s.len() ==> s[j] != c,
    ensures
        start == 0 ==> pieces(s, c) == seq![s.skip(0)],
        start > 0 ==> pieces(s, c) == pieces(s.take(start - 1), c).push(s.skip(start)),
{
    if start == 0 {
        lemma_uncut(s, c);
        assert(s.skip(0) =~= s);
    } else {
        lemma_cut_last(s, c, start - 1);
    }
}

// --- Decimal numbers ---------------------------------------------------------

pub open spec fn is_digit(c: char) -> bool {
    '0' <= c <= '9'
}

pub open spec fn digit_value(c: char) -> nat {
    (c as u32 - '0' as u32) as nat
}

pub open spec fn all_digits(s: Seq<char>) -> bool {
    forall|i: int| 0 <= i < s.len() ==> is_digit(#[trigger] s[i])
}

/// The number that the digits `s` write.
pub open spec fn digits_value(s: Seq<char>) -> nat
    decreases s.len(),
{
    if s.len() == 0 {
        0
    } else {
        digits_value(s.drop_last()) * 10 + digit_value(s.last())
    }
}

/// `s` read as an unsigned number of at most `max`: an optional `+`, then one or
/// more digits and nothing else.
pub open spec fn read_number(s: Seq<char>, max: nat) -> Option<nat> {
    let digits = if s.len() > 0 && s[0] == '+' {
        s.skip(1)
    } else {
        s
    };
    if digits.len() > 0 && all_digits(digits) && digits_value(digits) <= max {
        Some(digits_value(digits))
    } else {
        None
    }
}

proof fn lemma_digits_value_grows(s: Seq<char>, n: int)
    requires
        0 <= n <= s.len(),
        all_digits(s),
    ensures
        digits_value(s.take(n)) <= digits_value(s),
    decreases s.len(),
{
    if n == s.len() {
        assert(s.take(n) =~= s);
    } else {
        assert(all_digits(s.drop_last()));
        lemma_digits_value_grows(s.drop_last(), n);
        assert(s.drop_last().take(n) =~= s.take(n));
    }
}

/// The characters `chars[from..to]` read as an unsigned number of at most `max`.
pub fn parse_chars(chars: &[char], from: usize, to: usize, max: u64) -> (r: Option<u64>)
    requires
        from <= to <= chars@.len(),
    ensures
        match r {
            Some(n) => read_number(chars@.subrange(from as int, to as int), max as nat) == Some(
                n as nat,
            ),
            None => read_number(chars@.subrange(from as int, to as int), max as nat) is None,
        },
{
    let ghost whole = chars@.subrange(from as int, to as int);
    let start: usize = if from < to && chars[from] == '+' {
        from + 1
    } else {
        from
    };
    let ghost digits = chars@.subrange(start as int, to as int);
    assert(start == from + 1 ==> whole.skip(1) =~= digits);
    assert(read_number(whole, max as nat) == if digits.len() > 0 && all_digits(digits)
        && digits_value(digits) <= max {
        Some(digits_value(digits))
    } else {
        None
    }) by {
        if from < to {
            assert(whole[0] == chars@[from as int]);
        }
    }
    if start == to {
        return None;
    }
    let mut value: u64 = 0;
    let mut i: usize = start;
    assert(digits.take(0) =~= Seq::<char>::empty());
    while i < to
        invariant
            start <= i <= to <= chars@.len(),
            start < to,
            digits == chars@.subrange(start as int, to as int),
            whole == chars@.subrange(from as int, to as int),
            all_digits(digits.take(i - start)),
            value == digits_value(digits.take(i - start)),
            value <= max,
            read_number(whole, max as nat) == if digits.len() > 0 && all_digits(digits)
                && digits_value(digits) <= max {
                Some(digits_value(digits))
            } else {
                None
            },
        decreases to - i,
    {
        let c = chars[i];
        assert(digits[i - start] == c);
        if !('0' <= c && c <= '9') {
            assert(!all_digits(digits));
            return None;
        }
        let d: u64 = (c as u32 - '0' as u32) as u64;
        let ghost before = digits.take(i - start);
        let ghost after = digits.take(i + 1 - start);
        proof {
            assert(after.drop_last() =~= before);
            assert(after.last() == c);
            assert(digits_value(after) == digits_value(before) * 10 + d);
            assert forall|k: int| 0 <= k < after.len() implies is_digit(#[trigger] after[k]) by {
                if k < before.len() {
                    assert(before[k] == after[k]);
                }
            }
        }
        if value > max / 10 || d > max - value * 10 {
            proof {
                if all_digits(digits) {
                    lemma_digits_value_grows(digits, i + 1 - start);
                    assert(digits_value(after) > max);
                }
            }
            return None;
        }
        value = value * 10 + d;
        i += 1;
    }
    assert(digits.take(to - start) =~= digits);
    Some(value)
}

/// `s` read as an unsigned number of at most `max`.
pub fn parse_number(s: &str, max: u64) -> (r: Option<u64>)
    ensures
        match r {
            Some(n) => read_number(s@, max as nat) == Some(n as nat),
            None => read_number(s@, max as nat) is None,
        },
{
    let c = chars_of(s);
    assert(c@.subrange(0, c@.len() as int) =~= s@);
    parse_chars(&c, 0, c.len(), max)
}

pub open spec fn digit_char(d: nat) -> char {
    (('0' as u32 + d) as u32) as char
}

/// `n` in decimal, without leading zeros.
pub open spec fn decimal(n: nat) -> Seq<char>
    decreases n,
{
    if n < 10 {
        seq![digit_char(n)]
    } else {
        decimal(n / 10).push(digit_char(n % 10))
    }
}

fn digit(d: u64) -> (c: char)
    requires
        d < 10,
    ensures
        c == digit_char(d as nat),
{
    match d {
        0 => '0',
        1 => '1',
        2 => '2',
        3 => '3',
        4 => '4',
        5 => '5',
        6 => '6',
        7 => '7',
        8 => '8',
        _ => '9',
    }
}

/// Append `n` in decimal to `out`.
pub fn push_number(out: &mut String, n: u64)
    ensures
        final(out)@ == old(out)@ + decimal(n as nat),
    decreases n,
{
    if n >= 10 {
        push_number(out, n / 10);
    }
    let ghost mid = out@;
    out.push(digit(n % 10));
    assert(out@ =~= old(out)@ + decimal(n as nat));
}

/// Reading a number back from its decimal text gives the number, whatever the
/// bound it is read under, as long as it is within it.
pub proof fn law_decimal_reads_back(n: nat, max: nat)
    requires
        n <= max,
    ensures
        read_number(decimal(n), max) == Some(n),
{
    lemma_decimal_digits(n);
}

pub proof fn lemma_decimal_digits(n: nat)
    ensures
        decimal(n).len() > 0,
        all_digits(decimal(n)),
        digits_value(decimal(n)) == n,
        decimal(n)[0] != '+',
    decreases n,
{
    if n < 10 {
        let s = decimal(n);
        assert(s.drop_last() =~= Seq::<char>::empty());
        assert(digits_value(s.drop_last()) == 0);
        assert(digits_value(s) == digit_value(s.last()));
        assert(is_digit(s[0]));
    } else {
        lemma_decimal_digits(n / 10);
        let s = decimal(n);
        let d = digit_char(n % 10);
        assert(s.drop_last() =~= decimal(n / 10));
        assert(s.last() == d);
        assert(is_digit(d));
        assert(digits_value(s) == digits_value(s.drop_last()) * 10 + digit_value(d));
        assert(s[0] == decimal(n / 10)[0]);
    }
}

/// Space around a number is no part of it: the decimal text between spaces reads as the
/// number.
pub proof fn law_a_spaced_number_reads_back(left: Seq<char>, n: nat, right: Seq<char>, max: nat)
    requires
        n <= max,
        forall|i: int| 0 <= i < left.len() ==> is_space(#[trigger] left[i]),
        forall|i: int| 0 <= i < right.len() ==> is_space(#[trigger] right[i]),
    ensures
        trimmed(left + decimal(n) + right) == decimal(n),
        read_number(trimmed(left + decimal(n) + right), max) == Some(n),
{
    lemma_decimal_digits(n);
    law_decimal_reads_back(n, max);
    law_trimming_takes_the_space_around(left, decimal(n), right);
}

/// Trimming takes the white space on both ends and nothing else: what stood between,
/// beginning and ending with something that is no space, is left as it was.
pub proof fn law_trimming_takes_the_space_around(
    left: Seq<char>,
    core: Seq<char>,
    right: Seq<char>,
)
    requires
        forall|i: int| 0 <= i < left.len() ==> is_space(#[trigger] left[i]),
        forall|i: int| 0 <= i < right.len() ==> is_space(#[trigger] right[i]),
        core.len() > 0 ==> !is_space(core[0]) && !is_space(core.last()),
    ensures
        trimmed(left + core + right) == core,
{
    let s = left + core + right;
    assert(s =~= left + (core + right));
    lemma_leading_space(left, core + right);
    if core.len() == 0 {
        assert(core + right =~= right + Seq::<char>::empty());
        lemma_leading_space(right, Seq::empty());
        assert(trim_start(Seq::<char>::empty()) =~= Seq::<char>::empty());
        assert(trim_end(Seq::<char>::empty()) =~= Seq::<char>::empty());
        assert(trimmed(s) =~= core);
    } else {
        assert((core + right)[0] == core[0]);
        assert(trim_start(core + right) == core + right);
        lemma_trailing_space(core, right);
    }
}

proof fn lemma_leading_space(left: Seq<char>, rest: Seq<char>)
    requires
        forall|i: int| 0 <= i < left.len() ==> is_space(#[trigger] left[i]),
    ensures
        trim_start(left + rest) == trim_start(rest),
    decreases left.len(),
{
    if left.len() == 0 {
        assert(left + rest =~= rest);
    } else {
        assert(is_space(left[0]));
        assert((left + rest).drop_first() =~= left.drop_first() + rest);
        lemma_leading_space(left.drop_first(), rest);
    }
}

proof fn lemma_trailing_space(core: Seq<char>, right: Seq<char>)
    requires
        forall|i: int| 0 <= i < right.len() ==> is_space(#[trigger] right[i]),
        core.len() > 0,
        !is_space(core.last()),
    ensures
        trim_end(core + right) == core,
    decreases right.len(),
{
    if right.len() == 0 {
        assert(core + right =~= core);
    } else {
        assert(is_space(right[right.len() - 1]));
        assert((core + right).drop_last() =~= core + right.drop_last());
        lemma_trailing_space(core, right.drop_last());
    }
}

// --- Order -------------------------------------------------------------------

/// The order of texts: that of their characters, the shorter first where one
/// begins the other.
pub open spec fn precedes(a: Seq<char>, b: Seq<char>) -> bool
    decreases a.len(),
{
    if b.len() == 0 {
        false
    } else if a.len() == 0 {
        true
    } else {
        (a[0] as int) < (b[0] as int) || (a[0] == b[0] && precedes(a.drop_first(), b.drop_first()))
    }
}

/// No text precedes itself, and of two different texts one precedes the other.
pub proof fn lemma_order_is_total(a: Seq<char>, b: Seq<char>)
    ensures
        !precedes(a, a),
        !(precedes(a, b) && precedes(b, a)),
        a != b ==> precedes(a, b) || precedes(b, a),
    decreases a.len(),
{
    if a.len() > 0 {
        lemma_order_is_total(a.drop_first(), a.drop_first());
    }
    if a.len() > 0 && b.len() > 0 && a[0] == b[0] {
        lemma_order_is_total(a.drop_first(), b.drop_first());
        reveal_with_fuel(precedes, 2);
        if a.drop_first() == b.drop_first() {
            assert(a =~= seq![a[0]] + a.drop_first());
            assert(b =~= seq![b[0]] + b.drop_first());
        }
    }
    if a.len() == 0 && b.len() == 0 {
        assert(a =~= b);
    }
}

pub proof fn lemma_order_is_transitive(a: Seq<char>, b: Seq<char>, c: Seq<char>)
    requires
        precedes(a, b),
        precedes(b, c),
    ensures
        precedes(a, c),
    decreases a.len(),
{
    if a.len() > 0 && a[0] == b[0] && b[0] == c[0] {
        lemma_order_is_transitive(a.drop_first(), b.drop_first(), c.drop_first());
    }
}

pub open spec fn in_order(s: Seq<Seq<char>>) -> bool {
    forall|i: int, j: int| 0 <= i < j < s.len() ==> precedes(#[trigger] s[i], #[trigger] s[j])
}

fn lower(c: char, d: char) -> (r: bool)
    ensures
        r == ((c as int) < (d as int)),
{
    (c as u32) < (d as u32)
}

/// Does `a` come before `b`?
pub fn comes_before(a: &str, b: &str) -> (r: bool)
    ensures
        r == precedes(a@, b@),
{
    let x = chars_of(a);
    let y = chars_of(b);
    let mut i: usize = 0;
    assert(x@.skip(0) =~= a@);
    assert(y@.skip(0) =~= b@);
    while i < x.len() && i < y.len()
        invariant
            x@ == a@,
            y@ == b@,
            i <= x@.len(),
            i <= y@.len(),
            precedes(a@, b@) == precedes(x@.skip(i as int), y@.skip(i as int)),
        decreases x@.len() - i,
    {
        proof {
            assert(x@.skip(i as int).drop_first() =~= x@.skip(i as int + 1));
            assert(y@.skip(i as int).drop_first() =~= y@.skip(i as int + 1));
        }
        let c: char = x[i];
        let d: char = y[i];
        if lower(c, d) {
            return true;
        }
        if c != d {
            return false;
        }
        i += 1;
    }
    i < y.len()
}

/// File a name where it belongs.
pub fn file_name(names: &mut Vec<String>, name: String)
    requires
        in_order(texts(old(names)@)),
        !texts(old(names)@).contains(name@),
    ensures
        in_order(texts(final(names)@)),
        forall|n: Seq<char>|
            #[trigger] texts(final(names)@).contains(n) <==> texts(old(names)@).contains(n) || n
                == name@,
{
    let ghost was = names@;
    let ghost all = texts(was);
    let mut at: usize = 0;
    while at < names.len() && comes_before(names[at].as_str(), name.as_str())
        invariant
            names@ == was,
            all == texts(was),
            at <= names@.len(),
            forall|j: int| 0 <= j < at ==> precedes(#[trigger] all[j], name@),
        decreases names@.len() - at,
    {
        at += 1;
    }
    names.insert(at, name);
    proof {
        let after = texts(names@);
        assert(after =~= all.insert(at as int, name@));
        assert forall|j: int| at <= j < all.len() implies precedes(name@, #[trigger] all[j]) by {
            assert(all[at as int] != name@);
            lemma_order_is_total(name@, all[at as int]);
            if j > at {
                lemma_order_is_transitive(name@, all[at as int], all[j]);
            }
        }
        assert forall|i: int, j: int| 0 <= i < j < after.len() implies precedes(
            #[trigger] after[i],
            #[trigger] after[j],
        ) by {
            let i0 = if i < at {
                i
            } else {
                i - 1
            };
            let j0 = if j < at {
                j
            } else {
                j - 1
            };
            assert(i == at || after[i] == all[i0]);
            assert(j == at || after[j] == all[j0]);
        }
        assert forall|n: Seq<char>| #[trigger] after.contains(n) <==> all.contains(n) || n == name@ by {
            if all.contains(n) {
                let k = choose|k: int| 0 <= k < all.len() && all[k] == n;
                assert(after[if k < at {
                    k
                } else {
                    k + 1
                }] == n);
            }
            if n == name@ {
                assert(after[at as int] == n);
            }
            if after.contains(n) {
                let k = choose|k: int| 0 <= k < after.len() && after[k] == n;
                if k != at {
                    assert(all[if k < at {
                        k
                    } else {
                        k - 1
                    }] == n);
                }
            }
        }
    }
}

// --- Case --------------------------------------------------------------------

pub open spec fn ascii_lower(c: char) -> char {
    if 'A' <= c && c <= 'Z' {
        (c as int + 32) as char
    } else {
        c
    }
}

/// A text with its ASCII letters in lower case.
pub open spec fn lowered(s: Seq<char>) -> Seq<char> {
    s.map_values(|c: char| ascii_lower(c))
}

fn lower_char(c: char) -> (r: char)
    ensures
        r == ascii_lower(c),
{
    if 'A' <= c && c <= 'Z' {
        let u: u32 = c as u32;
        (u as u8 + 32) as char
    } else {
        c
    }
}

/// Are two texts equal but for the case of their ASCII letters?
pub fn same_ignoring_case(a: &str, b: &str) -> (r: bool)
    ensures
        r == (lowered(a@) == lowered(b@)),
{
    let x = chars_of(a);
    let y = chars_of(b);
    let ghost la = lowered(a@);
    let ghost lb = lowered(b@);
    if x.len() != y.len() {
        assert(la.len() != lb.len());
        return false;
    }
    let mut i: usize = 0;
    while i < x.len()
        invariant
            x@ == a@,
            y@ == b@,
            x@.len() == y@.len(),
            la == lowered(a@),
            lb == lowered(b@),
            i <= x@.len(),
            forall|j: int| 0 <= j < i ==> la[j] == lb[j],
        decreases x@.len() - i,
    {
        let c: char = x[i];
        let d: char = y[i];
        if lower_char(c) != lower_char(d) {
            assert(la[i as int] != lb[i as int]);
            return false;
        }
        i += 1;
    }
    assert(la =~= lb);
    true
}

// --- Searching ---------------------------------------------------------------

/// The first place where `p` stands in `s`.
pub open spec fn found(s: Seq<char>, p: Seq<char>) -> Option<int>
    decreases s.len(),
{
    if has_prefix(s, p) {
        Some(0)
    } else if s.len() == 0 {
        None
    } else {
        match found(s.drop_first(), p) {
            Some(i) => Some(i + 1),
            None => None,
        }
    }
}

/// The first place where `p` stands in `s`, in characters.
pub fn find(s: &str, p: &str) -> (r: Option<usize>)
    ensures
        match r {
            Some(i) => found(s@, p@) == Some(i as int) && i + p@.len() <= s@.len(),
            None => found(s@, p@) is None,
        },
{
    let cs = chars_of(s);
    let ps = chars_of(p);
    let mut i: usize = 0;
    assert(cs@.skip(0) =~= s@);
    while i <= cs.len()
        invariant
            cs@ == s@,
            ps@ == p@,
            i <= cs.len() + 1,
            i <= cs.len() ==> found(s@, p@) == match found(cs@.skip(i as int), p@) {
                Some(k) => Some(k + i),
                None => None,
            },
            i == cs.len() + 1 ==> found(s@, p@) is None,
        decreases cs@.len() + 1 - i,
    {
        if prefix_at(&cs, i, &ps) {
            return Some(i);
        }
        proof {
            let rest = cs@.skip(i as int);
            if i < cs@.len() {
                assert(rest.drop_first() =~= cs@.skip(i as int + 1));
            }
        }
        if i == cs.len() {
            return None;
        }
        i += 1;
    }
    None
}

// --- Parts -------------------------------------------------------------------

/// Whether `part` stands somewhere in `s`.
pub open spec fn holds(s: Seq<char>, part: Seq<char>) -> bool {
    exists|a: Seq<char>, b: Seq<char>| s == #[trigger] (a + part + b)
}

/// A part of a text is a part of every text made of it.
pub proof fn lemma_holds_within(a: Seq<char>, s: Seq<char>, b: Seq<char>, part: Seq<char>)
    requires
        holds(s, part),
    ensures
        holds(a + s + b, part),
{
    let (x, y) = choose|x: Seq<char>, y: Seq<char>| s == #[trigger] (x + part + y);
    assert(a + s + b =~= (a + x) + part + (y + b));
}

/// A part of a part is a part.
pub proof fn lemma_holds_through(s: Seq<char>, part: Seq<char>, inner: Seq<char>)
    requires
        holds(s, part),
        holds(part, inner),
    ensures
        holds(s, inner),
{
    let (a, b) = choose|a: Seq<char>, b: Seq<char>| s == #[trigger] (a + part + b);
    lemma_holds_within(a, part, b, inner);
}

/// A text is a part of itself.
pub proof fn lemma_holds_itself(s: Seq<char>)
    ensures
        holds(s, s),
{
    assert(s =~= Seq::<char>::empty() + s + Seq::<char>::empty());
}

// --- What the texts come to --------------------------------------------------

/// What is looked for is found at the first place where it stands, and nowhere only
/// where it stands nowhere.
pub proof fn law_the_first_place_is_found(s: Seq<char>, p: Seq<char>, i: int)
    requires
        0 <= i <= s.len(),
        forall|j: int|
            0 <= j < i && j + p.len() <= s.len() ==> #[trigger] s.subrange(j, j + p.len()) != p,
    ensures
        i + p.len() <= s.len() && s.subrange(i, i + p.len()) == p ==> found(s, p) == Some(i),
        i == s.len() && p.len() > 0 ==> found(s, p) is None,
    decreases i,
{
    let n = p.len() as int;
    if i > 0 {
        assert(!has_prefix(s, p)) by {
            if n <= s.len() {
                assert(s.subrange(0, 0 + n) =~= s.take(n));
            }
        }
        let rest = s.drop_first();
        assert forall|j: int| 0 <= j < i - 1 && j + n <= rest.len() implies #[trigger] rest.subrange(
            j,
            j + n,
        ) != p by {
            assert(rest.subrange(j, j + n) =~= s.subrange(j + 1, j + 1 + n));
        }
        law_the_first_place_is_found(rest, p, i - 1);
        if i + n <= s.len() {
            assert(rest.subrange(i - 1, i - 1 + n) =~= s.subrange(i, i + n));
        }
    } else {
        if n <= s.len() {
            assert(s.subrange(0, n) =~= s.take(n));
        }
    }
}

/// Every separator starts a new piece, and a text without one is one piece.
pub proof fn law_a_separator_starts_a_piece(before: Seq<char>, c: char, last: Seq<char>)
    requires
        !last.contains(c),
    ensures
        pieces(last, c) == seq![last],
        pieces(before.push(c) + last, c) == pieces(before, c).push(last),
{
    assert forall|j: int| 0 <= j < last.len() implies last[j] != c by {
        assert(last.contains(last[j]));
    }
    lemma_last_piece(last, c, 0);
    assert(last.skip(0) =~= last);
    let s = before.push(c) + last;
    let i = (before.len() + 1) as int;
    assert forall|j: int| i <= j < s.len() implies s[j] != c by {
        assert(s[j] == last[j - i]);
    }
    lemma_last_piece(s, c, i);
    assert(s.skip(i) =~= last);
    assert(s.take(i - 1) =~= before);
}

/// A text is cut at the first separator, or at the last, into what stood before and
/// behind it.
pub proof fn law_a_cut_parts_the_text(a: Seq<char>, c: char, b: Seq<char>)
    ensures
        !a.contains(c) ==> cut_first(a.push(c) + b, c) == Some((a, b)),
        !b.contains(c) ==> cut_last(a.push(c) + b, c) == Some((a, b)),
        !a.contains(c) ==> cut_first(a, c) is None && cut_last(a, c) is None,
{
    let s = a.push(c) + b;
    let i = a.len() as int;
    assert(s.take(i) =~= a);
    assert(s.skip(i + 1) =~= b);
    if !a.contains(c) {
        assert forall|j: int| 0 <= j < i implies s[j] != c && a[j] != c by {
            assert(s[j] == a[j]);
            assert(a.contains(a[j]));
        }
        lemma_cut_first(s, c, i);
        lemma_uncut(a, c);
    }
    if !b.contains(c) {
        assert forall|j: int| i < j < s.len() implies s[j] != c by {
            assert(s[j] == b[j - i - 1]);
            assert(b.contains(b[j - i - 1]));
        }
        lemma_cut_last(s, c, i);
    }
}

/// The first difference decides which of two texts comes first, and a text comes before
/// every longer one that begins with it.
pub proof fn law_the_first_difference_decides(
    p: Seq<char>,
    x: char,
    s: Seq<char>,
    y: char,
    t: Seq<char>,
)
    ensures
        (x as int) < (y as int) ==> precedes(p.push(x) + s, p.push(y) + t) && !precedes(
            p.push(y) + t,
            p.push(x) + s,
        ),
        precedes(p, p.push(x) + s),
        !precedes(p.push(x) + s, p),
    decreases p.len(),
{
    let a = p.push(x) + s;
    let b = p.push(y) + t;
    if p.len() > 0 {
        let q = p.drop_first();
        law_the_first_difference_decides(q, x, s, y, t);
        assert(a.drop_first() =~= q.push(x) + s);
        assert(b.drop_first() =~= q.push(y) + t);
    }
}

/// Only capital letters change in lower case, each to the small letter of its kind.
pub proof fn law_only_capitals_are_lowered(s: Seq<char>, i: int)
    requires
        0 <= i < s.len(),
    ensures
        lowered(s).len() == s.len(),
        'A' <= s[i] <= 'Z' ==> lowered(s)[i] as int - 'a' as int == s[i] as int - 'A' as int,
        !('A' <= s[i] <= 'Z') ==> lowered(s)[i] == s[i],
        lowered(lowered(s)) == lowered(s),
{
    assert(lowered(lowered(s)) =~= lowered(s));
}

/// What is read as a number is digits alone, but for one sign before them, and within
/// the bound.
pub proof fn law_only_digits_are_a_number(s: Seq<char>, max: nat, i: int)
    ensures
        read_number(s, max) matches Some(n) ==> n <= max,
        0 <= i < s.len() && !is_digit(s[i]) && !(i == 0 && s[i] == '+') ==> read_number(
            s,
            max,
        ) is None,
        s.len() == 0 ==> read_number(s, max) is None,
{
    if 0 <= i < s.len() && !is_digit(s[i]) && !(i == 0 && s[i] == '+') {
        if s[0] == '+' {
            assert(s.skip(1)[i - 1] == s[i]);
        }
    }
}

} // verus!
