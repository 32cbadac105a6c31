use vstd::prelude::*;

verus! {

broadcast use vstd::string::group_string_axioms;

/// The characters of a string, in order.
pub fn chars_of(s: &str) -> (r: Vec<char>)
    ensures
        r@ == s@,
{
    let mut r: Vec<char> = Vec::new();
    for c in it: s.chars()
        invariant
            it.seq() == s@,
            r@ == it.seq().take(it.index()),
    {
        r.push(c);
    }
    r
}

// ---------------------------------------------------------------------------
// Whitespace and trimming
// ---------------------------------------------------------------------------

/// The characters with the Unicode property White_Space.
pub open spec fn is_white_space(c: char) -> bool {
    let u = c as u32;
    ||| 9 <= u <= 13
    ||| u == 32
    ||| u == 0x85
    ||| u == 0xa0
    ||| u == 0x1680
    ||| 0x2000 <= u <= 0x200a
    ||| u == 0x2028
    ||| u == 0x2029
    ||| u == 0x202f
    ||| u == 0x205f
    ||| u == 0x3000
}

/// The sequence without its leading whitespace.
pub open spec fn trim_start(s: Seq<char>) -> Seq<char>
    decreases s.len(),
{
    if s.len() > 0 && is_white_space(s[0]) {
        trim_start(s.drop_first())
    } else {
        s
    }
}

/// The sequence without its trailing whitespace.
pub open spec fn trim_end(s: Seq<char>) -> Seq<char>
    decreases s.len(),
{
    if s.len() > 0 && is_white_space(s.last()) {
        trim_end(s.drop_last())
    } else {
        s
    }
}

/// The sequence without leading and trailing whitespace.
pub open spec fn trimmed(s: Seq<char>) -> Seq<char> {
    trim_end(trim_start(s))
}

pub fn is_white_space_char(c: char) -> (r: bool)
    ensures
        r == is_white_space(c),
{
    let u = c as u32;
    (9 <= u && u <= 13) || u == 32 || u == 0x85 || u == 0xa0 || u == 0x1680 || (0x2000 <= u && u
        <= 0x200a) || u == 0x2028 || u == 0x2029 || u == 0x202f || u == 0x205f || u == 0x3000
}

/// The bounds `(start, end)` of the trimmed part of `v`.
pub fn trim_bounds(v: &Vec<char>) -> (r: (usize, usize))
    ensures
        r.0 <= r.1 <= v@.len(),
        v@.subrange(r.0 as int, r.1 as int) == trimmed(v@),
{
    let n = v.len();
    let mut i: usize = 0;
    assert(v@.skip(0) =~= v@);
    while i < n && is_white_space_char(v[i])
        invariant
            n == v@.len(),
            i <= n,
            trim_start(v@) == trim_start(v@.skip(i as int)),
        decreases n - i,
    {
        assert(v@.skip(i as int).drop_first() =~= v@.skip(i + 1));
        i = i + 1;
    }
    let ghost t = v@.skip(i as int);
    assert(trim_start(t) == t);
    let mut j: usize = n;
    while j > i && is_white_space_char(v[j - 1])
        invariant
            n == v@.len(),
            i <= j <= n,
            t == v@.skip(i as int),
            trim_end(t) == trim_end(v@.subrange(i as int, j as int)),
        decreases j,
    {
        assert(v@.subrange(i as int, j as int).drop_last() =~= v@.subrange(i as int, j - 1));
        j = j - 1;
    }
    assert(t =~= v@.subrange(i as int, n as int));
    (i, j)
}

// ---------------------------------------------------------------------------
// Decimal integers
// ---------------------------------------------------------------------------

/// The value of a decimal digit, or -1 for any other character.
pub open spec fn digit_value(c: char) -> int {
    if c == '0' {
        0
    } else if c == '1' {
        1
    } else if c == '2' {
        2
    } else if c == '3' {
        3
    } else if c == '4' {
        4
    } else if c == '5' {
        5
    } else if c == '6' {
        6
    } else if c == '7' {
        7
    } else if c == '8' {
        8
    } else if c == '9' {
        9
    } else {
        -1
    }
}

/// The digit character for a value `0..=9`.
pub open spec fn digit_char(d: int) -> char {
    if d == 0 {
        '0'
    } else if d == 1 {
        '1'
    } else if d == 2 {
        '2'
    } else if d == 3 {
        '3'
    } else if d == 4 {
        '4'
    } else if d == 5 {
        '5'
    } else if d == 6 {
        '6'
    } else if d == 7 {
        '7'
    } else if d == 8 {
        '8'
    } else {
        '9'
    }
}

pub open spec fn all_digits(s: Seq<char>) -> bool {
    forall|i: int| 0 <= i < s.len() ==> digit_value(#[trigger] s[i]) >= 0
}

/// The value of a sequence of decimal digits, most significant first.
pub open spec fn digits_value(s: Seq<char>) -> int
    decreases s.len(),
{
    if s.len() == 0 {
        0
    } else {
        digits_value(s.drop_last()) * 10 + digit_value(s.last())
    }
}

/// Whether the text starts with a minus sign.
pub open spec fn is_negative(s: Seq<char>) -> bool {
    s.len() > 0 && s[0] == '-'
}

/// The text after an optional leading sign.
pub open spec fn unsigned_part(s: Seq<char>) -> Seq<char> {
    if s.len() > 0 && (s[0] == '-' || s[0] == '+') {
        s.drop_first()
    } else {
        s
    }
}

/// The signed value of the digits after the optional sign.
pub open spec fn signed_value(s: Seq<char>) -> int {
    if is_negative(s) {
        -digits_value(unsigned_part(s))
    } else {
        digits_value(unsigned_part(s))
    }
}

/// What `str::parse::<i32>` gives: an optional sign `+` or `-`, then one or
/// more ASCII digits, whose value must fit in an `i32`.
pub open spec fn parsed_i32(s: Seq<char>) -> Option<i32> {
    if unsigned_part(s).len() > 0 && all_digits(unsigned_part(s)) && i32::MIN <= signed_value(s)
        <= i32::MAX {
        Some(signed_value(s) as i32)
    } else {
        None
    }
}

/// The decimal digits of a natural number, without leading zeros.
pub open spec fn digits_of(n: nat) -> Seq<char>
    decreases n,
{
    if n < 10 {
        seq![digit_char(n as int)]
    } else {
        digits_of(n / 10).push(digit_char((n % 10) as int))
    }
}

/// The decimal text of an integer, as `i32::to_string` writes it.
pub open spec fn decimal(v: int) -> Seq<char> {
    if v < 0 {
        seq!['-'] + digits_of((-v) as nat)
    } else {
        digits_of(v as nat)
    }
}

fn digit_of_char(c: char) -> (r: i64)
    ensures
        r == digit_value(c),
{
    match c {
        '0' => 0,
        '1' => 1,
        '2' => 2,
        '3' => 3,
        '4' => 4,
        '5' => 5,
        '6' => 6,
        '7' => 7,
        '8' => 8,
        '9' => 9,
        _ => -1,
    }
}

fn char_of_digit(d: u64) -> (r: char)
    requires
        d < 10,
    ensures
        r == digit_char(d as int),
{
    if d == 0 {
        '0'
    } else if d == 1 {
        '1'
    } else if d == 2 {
        '2'
    } else if d == 3 {
        '3'
    } else if d == 4 {
        '4'
    } else if d == 5 {
        '5'
    } else if d == 6 {
        '6'
    } else if d == 7 {
        '7'
    } else if d == 8 {
        '8'
    } else {
        '9'
    }
}

proof fn lemma_digits_value_nonneg(s: Seq<char>)
    requires
        all_digits(s),
    ensures
        digits_value(s) >= 0,
    decreases s.len(),
{
    if s.len() > 0 {
        assert(digit_value(s[s.len() - 1]) >= 0);
        lemma_digits_value_nonneg(s.drop_last());
    }
}

proof fn lemma_digits_value_prefix(s: Seq<char>, k: int)
    requires
        all_digits(s),
        0 <= k <= s.len(),
    ensures
        digits_value(s.take(k)) <= digits_value(s),
    decreases s.len(),
{
    if k == s.len() {
        assert(s.take(k) =~= s);
    } else {
        assert(s.take(k) =~= s.drop_last().take(k));
        assert(digit_value(s[s.len() - 1]) >= 0);
        lemma_digits_value_nonneg(s.drop_last());
        lemma_digits_value_prefix(s.drop_last(), k);
    }
}

/// Parses `v[lo..hi]` as `str::parse::<i32>` does.
pub fn parse_i32_range(v: &Vec<char>, lo: usize, hi: usize) -> (r: Option<i32>)
    requires
        lo <= hi <= v@.len(),
    ensures
        r == parsed_i32(v@.subrange(lo as int, hi as int)),
{
    let ghost s = v@.subrange(lo as int, hi as int);
    let mut start = lo;
    let mut neg = false;
    if lo < hi && (v[lo] == '-' || v[lo] == '+') {
        neg = v[lo] == '-';
        start = lo + 1;
    }
    let ghost body = v@.subrange(start as int, hi as int);
    assert(body =~= unsigned_part(s));
    assert(neg == is_negative(s));
    if start == hi {
        return None;
    }
    let mut acc: i64 = 0;
    let mut k: usize = start;
    while k < hi
        invariant
            lo <= start <= k <= hi <= v@.len(),
            body == v@.subrange(start as int, hi as int),
            s == v@.subrange(lo as int, hi as int),
            body == unsigned_part(s),
            neg == is_negative(s),
            all_digits(body.take(k - start)),
            acc == digits_value(body.take(k - start)),
            0 <= acc <= 2147483648,
        decreases hi - k,
    {
        let d = digit_of_char(v[k]);
        assert(body[k - start] == v@[k as int]);
        if d < 0 {
            assert(digit_value(body[k - start]) < 0);
            assert(!all_digits(body));
            return None;
        }
        let ghost pre = body.take(k - start);
        let ghost next = body.take(k - start + 1);
        assert(next.drop_last() =~= pre);
        assert(next.last() == v@[k as int]);
        assert(all_digits(next));
        if acc * 10 + d > 2147483648 {
            proof {
                if all_digits(body) {
                    lemma_digits_value_prefix(body, k - start + 1);
                }
            }
            return None;
        }
        acc = acc * 10 + d;
        k = k + 1;
    }
    assert(body.take(k - start) =~= body);
    if neg {
        Some((-acc) as i32)
    } else if acc > 2147483647 {
        None
    } else {
        Some(acc as i32)
    }
}

/// The decimal text of `v`, as `to_string` writes it.
pub fn decimal_chars(v: i32) -> (r: Vec<char>)
    ensures
        r@ == decimal(v as int),
{
    let mut m: u64 = if v < 0 {
        (-(v as i64)) as u64
    } else {
        v as u64
    };
    let ghost n: nat = m as nat;
    let mut tail: Vec<char> = Vec::new();
    while m >= 10
        invariant
            digits_of(n) == digits_of(m as nat) + tail@,
        decreases m,
    {
        let c = char_of_digit(m % 10);
        assert(digits_of(m as nat) == digits_of((m / 10) as nat).push(digit_char((m % 10) as int)));
        assert(digits_of((m / 10) as nat).push(c) + tail@ =~= digits_of((m / 10) as nat) + seq![c]
            + tail@);
        let ghost old_tail = tail@;
        tail.insert(0, c);
        assert(tail@ =~= seq![c] + old_tail);
        m = m / 10;
    }
    let mut r: Vec<char> = Vec::new();
    if v < 0 {
        r.push('-');
    }
    r.push(char_of_digit(m));
    r.append(&mut tail);
    assert(digits_of(m as nat) =~= seq![digit_char(m as int)]);
    if v < 0 {
        assert(r@ =~= seq!['-'] + digits_of(n));
    } else {
        assert(r@ =~= digits_of(n));
    }
    r
}

// ---------------------------------------------------------------------------
// Splitting into pieces and lines
// ---------------------------------------------------------------------------

/// The pieces between the separators, as `str::split` gives them: always at
/// least one piece, and an empty piece at each end that is a separator.
pub open spec fn split_on(s: Seq<char>, sep: char) -> Seq<Seq<char>>
    decreases s.len(),
{
    if s.len() == 0 {
        seq![Seq::<char>::empty()]
    } else {
        let p = split_on(s.drop_last(), sep);
        if s.last() == sep {
            p.push(Seq::<char>::empty())
        } else {
            p.update(p.len() - 1, p.last().push(s.last()))
        }
    }
}

pub proof fn lemma_split_on_nonempty(s: Seq<char>, sep: char)
    ensures
        split_on(s, sep).len() >= 1,
    decreases s.len(),
{
    if s.len() > 0 {
        lemma_split_on_nonempty(s.drop_last(), sep);
    }
}

/// A line without the carriage return of a `\r\n` ending.
pub open spec fn strip_cr(l: Seq<char>) -> Seq<char> {
    if l.len() > 0 && l.last() == '\r' {
        l.drop_last()
    } else {
        l
    }
}

/// The lines of a text, as `str::lines` gives them: split at `\n`, with a
/// `\r` before a `\n` removed, and no empty line after a final `\n`.
pub open spec fn text_lines(s: Seq<char>) -> Seq<Seq<char>> {
    let p = split_on(s, '\n');
    let body = p.drop_last().map_values(|l: Seq<char>| strip_cr(l));
    if p.last().len() == 0 {
        body
    } else {
        body.push(p.last())
    }
}

/// The text of each range of `v`.
pub open spec fn range_texts(v: Seq<char>, r: Seq<(usize, usize)>) -> Seq<Seq<char>> {
    r.map_values(|p: (usize, usize)| v.subrange(p.0 as int, p.1 as int))
}

pub open spec fn ranges_within(r: Seq<(usize, usize)>, lo: int, hi: int) -> bool {
    forall|i: int| 0 <= i < r.len() ==> lo <= (#[trigger] r[i]).0 <= r[i].1 <= hi
}

/// The ranges of the pieces of `v[lo..hi]` between the separators `sep`.
pub fn split_ranges(v: &Vec<char>, lo: usize, hi: usize, sep: char) -> (r: Vec<(usize, usize)>)
    requires
        lo <= hi <= v@.len(),
    ensures
        range_texts(v@, r@) == split_on(v@.subrange(lo as int, hi as int), sep),
        ranges_within(r@, lo as int, hi as int),
{
    let mut r: Vec<(usize, usize)> = Vec::new();
    let mut cs: usize = lo;
    let mut k: usize = lo;
    assert(v@.subrange(lo as int, lo as int) =~= Seq::<char>::empty());
    assert(range_texts(v@, r@).push(v@.subrange(cs as int, k as int)) =~= seq![
        Seq::<char>::empty(),
    ]);
    while k < hi
        invariant
            lo <= cs <= k <= hi <= v@.len(),
            ranges_within(r@, lo as int, k as int),
            range_texts(v@, r@).push(v@.subrange(cs as int, k as int)) == split_on(
                v@.subrange(lo as int, k as int),
                sep,
            ),
        decreases hi - k,
    {
        let c = v[k];
        let ghost t = v@.subrange(lo as int, k + 1);
        assert(t.drop_last() =~= v@.subrange(lo as int, k as int));
        assert(t.last() == c);
        let ghost before = range_texts(v@, r@);
        if c == sep {
            let ghost old_cs = cs;
            r.push((cs, k));
            cs = k + 1;
            assert(v@.subrange(cs as int, k + 1) =~= Seq::<char>::empty());
            assert(range_texts(v@, r@) =~= before.push(v@.subrange(old_cs as int, k as int)));
        } else {
            assert(v@.subrange(cs as int, k + 1) =~= v@.subrange(cs as int, k as int).push(c));
        }
        k = k + 1;
        assert(range_texts(v@, r@).push(v@.subrange(cs as int, k as int)) =~= split_on(
            v@.subrange(lo as int, k as int),
            sep,
        ));
    }
    r.push((cs, k));
    assert(range_texts(v@, r@) =~= split_on(v@.subrange(lo as int, hi as int), sep));
    r
}

/// The ranges of the lines of `v`, as `str::lines` splits them.
pub fn line_ranges(v: &Vec<char>) -> (r: Vec<(usize, usize)>)
    ensures
        range_texts(v@, r@) == text_lines(v@),
        ranges_within(r@, 0, v@.len() as int),
{
    let n = v.len();
    let p = split_ranges(v, 0, n, '\n');
    assert(v@.subrange(0, n as int) =~= v@);
    let ghost pieces = split_on(v@, '\n');
    proof {
        lemma_split_on_nonempty(v@, '\n');
    }
    let m = p.len();
    let mut r: Vec<(usize, usize)> = Vec::new();
    let mut i: usize = 0;
    while i + 1 < m
        invariant
            m == p@.len() >= 1,
            n == v@.len(),
            i + 1 <= m,
            pieces == split_on(v@, '\n'),
            range_texts(v@, p@) == pieces,
            ranges_within(p@, 0, n as int),
            ranges_within(r@, 0, n as int),
            range_texts(v@, r@) == pieces.take(i as int).map_values(|l: Seq<char>| strip_cr(l)),
        decreases m - i,
    {
        let (a, b) = p[i];
        assert(range_texts(v@, p@)[i as int] == v@.subrange(a as int, b as int));
        let ghost before = range_texts(v@, r@);
        if b > a && v[b - 1] == '\r' {
            r.push((a, b - 1));
            assert(v@.subrange(a as int, b - 1) =~= strip_cr(v@.subrange(a as int, b as int)));
        } else {
            r.push((a, b));
        }
        assert(range_texts(v@, r@) =~= before.push(strip_cr(pieces[i as int])));
        i = i + 1;
        assert(range_texts(v@, r@) =~= pieces.take(i as int).map_values(
            |l: Seq<char>| strip_cr(l),
        ));
    }
    assert(pieces.take(i as int) =~= pieces.drop_last());
    let (a, b) = p[m - 1];
    assert(range_texts(v@, p@)[m - 1] == v@.subrange(a as int, b as int));
    if b > a {
        let ghost before = range_texts(v@, r@);
        r.push((a, b));
        assert(range_texts(v@, r@) =~= before.push(pieces.last()));
    }
    r
}

/// Parses the text, without its leading and trailing whitespace, as
/// `str::parse::<i32>` does.
pub fn parse_trimmed_i32(s: &str) -> (r: Option<i32>)
    ensures
        r == parsed_i32(trimmed(s@)),
{
    let v = chars_of(s);
    let (lo, hi) = trim_bounds(&v);
    parse_i32_range(&v, lo, hi)
}

proof fn lemma_digit_char(d: int)
    requires
        0 <= d < 10,
    ensures
        digit_value(digit_char(d)) == d,
{
}

proof fn lemma_digits_of(n: nat)
    ensures
        digits_of(n).len() >= 1,
        all_digits(digits_of(n)),
        digits_value(digits_of(n)) == n,
    decreases n,
{
    let s = digits_of(n);
    if n < 10 {
        lemma_digit_char(n as int);
        assert(s.drop_last() =~= Seq::<char>::empty());
        assert(digits_value(s.drop_last()) == 0);
    } else {
        lemma_digit_char((n % 10) as int);
        lemma_digits_of(n / 10);
        assert(s.drop_last() =~= digits_of(n / 10));
        assert(forall|i: int| 0 <= i < s.len() - 1 ==> s[i] == digits_of(n / 10)[i]);
        assert(n == (n / 10) * 10 + n % 10);
    }
}

/// The decimal text of every `i32` parses back to the same number, and has
/// no whitespace around it to trim.
pub proof fn lemma_decimal_round_trip(v: i32)
    ensures
        trimmed(decimal(v as int)) == decimal(v as int),
        parsed_i32(decimal(v as int)) == Some(v),
{
    let s = decimal(v as int);
    if v < 0 {
        let n = (-v) as nat;
        lemma_digits_of(n);
        assert(s.drop_first() =~= digits_of(n));
        assert(s.last() == digits_of(n).last());
        assert(digit_value(digits_of(n).last()) >= 0);
    } else {
        lemma_digits_of(v as nat);
        assert(digit_value(s[0]) >= 0);
        assert(digit_value(s.last()) >= 0);
    }
    assert(trim_start(s) == s);
    assert(trim_end(s) == s);
}

proof fn lemma_trim_start_skips(a: Seq<char>, rest: Seq<char>)
    requires
        forall|i: int| 0 <= i < a.len() ==> is_white_space(#[trigger] a[i]),
        rest.len() > 0,
        !is_white_space(rest[0]),
    ensures
        trim_start(a + rest) == rest,
    decreases a.len(),
{
    if a.len() == 0 {
        assert(a + rest =~= rest);
    } else {
        assert((a + rest).drop_first() =~= a.drop_first() + rest);
        assert(is_white_space(a[0]));
        lemma_trim_start_skips(a.drop_first(), rest);
    }
}

proof fn lemma_trim_end_skips(d: Seq<char>, b: Seq<char>)
    requires
        forall|i: int| 0 <= i < b.len() ==> is_white_space(#[trigger] b[i]),
        d.len() > 0,
        !is_white_space(d.last()),
    ensures
        trim_end(d + b) == d,
    decreases b.len(),
{
    if b.len() == 0 {
        assert(d + b =~= d);
    } else {
        assert((d + b).drop_last() =~= d + b.drop_last());
        assert(is_white_space(b[b.len() - 1]));
        lemma_trim_end_skips(d, b.drop_last());
    }
}

/// Trimming removes exactly the whitespace around a text that neither starts
/// nor ends with whitespace.
pub proof fn lemma_trim_around(a: Seq<char>, d: Seq<char>, b: Seq<char>)
    requires
        forall|i: int| 0 <= i < a.len() ==> is_white_space(#[trigger] a[i]),
        forall|i: int| 0 <= i < b.len() ==> is_white_space(#[trigger] b[i]),
        d.len() > 0,
        !is_white_space(d[0]),
        !is_white_space(d.last()),
    ensures
        trimmed(a + d + b) == d,
{
    assert(a + d + b =~= a + (d + b));
    assert((d + b)[0] == d[0]);
    lemma_trim_start_skips(a, d + b);
    lemma_trim_end_skips(d, b);
}

/// The decimal text of an `i32` starts and ends with a character that is not
/// whitespace.
pub proof fn lemma_decimal_not_blank(v: i32)
    ensures
        decimal(v as int).len() > 0,
        !is_white_space(decimal(v as int)[0]),
        !is_white_space(decimal(v as int).last()),
{
    let s = decimal(v as int);
    if v < 0 {
        lemma_digits_of((-v) as nat);
        assert(s.last() == digits_of((-v) as nat).last());
        assert(digit_value(digits_of((-v) as nat).last()) >= 0);
    } else {
        lemma_digits_of(v as nat);
        assert(digit_value(s[0]) >= 0);
        assert(digit_value(s.last()) >= 0);
    }
}

} // verus!
