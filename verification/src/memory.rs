//! Process memory reporting helpers.
use vstd::prelude::*;

verus! {

/// Number of bytes taken by a dense `rows x cols` matrix whose entries take
/// `item_size` bytes each.
pub open spec fn matrix_bytes_spec(rows: nat, cols: nat, item_size: nat) -> nat {
    rows * cols * item_size
}

/// Bytes of a dense `rows x cols` matrix with entries of `item_size` bytes.
pub fn matrix_bytes(rows: usize, cols: usize, item_size: usize) -> (bytes: u64)
    requires
        rows * cols <= u64::MAX,
        rows * cols * item_size <= u64::MAX,
    ensures
        bytes == matrix_bytes_spec(rows as nat, cols as nat, item_size as nat),
{
    let r: u64 = rows as u64;
    let c: u64 = cols as u64;
    let s: u64 = item_size as u64;
    let rc: u64 = r * c;
    rc * s
}

/// The characters of `s`, in order.
fn chars_of(s: &str) -> (out: Vec<char>)
    ensures
        out@ == s@,
{
    broadcast use vstd::string::group_string_axioms;
    let mut out: Vec<char> = Vec::new();
    for c in it: s.chars()
        invariant
            out@ == it.seq().take(it.index() as int),
    {
        out.push(c);
    }
    out
}


/// `c` is white space as `char::is_whitespace` decides it: the characters
/// with the Unicode `White_Space` property.
pub open spec fn is_white_space(c: char) -> bool {
    let u = c as u32;
    ||| 9 <= u <= 13
    ||| u == 32
    ||| u == 0x85
    ||| u == 0xa0
    ||| u == 0x1680
    ||| 0x2000 <= u <= 0x200a
    ||| u == 0x2028
    ||| u == 0x2029
    ||| u == 0x202f
    ||| u == 0x205f
    ||| u == 0x3000
}

/// Whether `c` is white space.
pub fn is_white_space_char(c: char) -> (b: bool)
    ensures
        b == is_white_space(c),
{
    let u = c as u32;
    (9 <= u && u <= 13) || u == 32 || u == 0x85 || u == 0xa0 || u == 0x1680 || (0x2000 <= u && u
        <= 0x200a) || u == 0x2028 || u == 0x2029 || u == 0x202f || u == 0x205f || u == 0x3000
}

/// Number of leading characters of `s` that are white space (`ws`) or that
/// are not (`!ws`).
pub open spec fn leading_run(s: Seq<char>, ws: bool) -> nat
    decreases s.len(),
{
    if s.len() == 0 || is_white_space(s[0]) != ws {
        0
    } else {
        1 + leading_run(s.skip(1), ws)
    }
}

/// Position of the first line feed of `s`, or its length when it has none.
pub open spec fn line_end(s: Seq<char>) -> nat
    decreases s.len(),
{
    if s.len() == 0 || s[0] == '\n' {
        0
    } else {
        1 + line_end(s.skip(1))
    }
}

/// A run of `n` characters with (`ws`) or without (`!ws`) white space that
/// ends the string or a character of the other kind is the leading run.
proof fn lemma_leading_run(s: Seq<char>, ws: bool, n: int)
    requires
        0 <= n <= s.len(),
        forall|i: int| 0 <= i < n ==> is_white_space(#[trigger] s[i]) == ws,
        n == s.len() || is_white_space(s[n]) != ws,
    ensures
        leading_run(s, ws) == n,
    decreases n,
{
    if n > 0 {
        let t = s.skip(1);
        assert forall|i: int| 0 <= i < n - 1 implies is_white_space(#[trigger] t[i]) == ws by {
            assert(t[i] == s[i + 1]);
        }
        if n < s.len() {
            assert(t[n - 1] == s[n]);
        }
        lemma_leading_run(t, ws, n - 1);
    }
}

/// `n` characters without a line feed, followed by one or by the end, make
/// up the first line.
proof fn lemma_line_end(s: Seq<char>, n: int)
    requires
        0 <= n <= s.len(),
        forall|i: int| 0 <= i < n ==> #[trigger] s[i] != '\n',
        n == s.len() || s[n] == '\n',
    ensures
        line_end(s) == n,
    decreases n,
{
    if n > 0 {
        let t = s.skip(1);
        assert forall|i: int| 0 <= i < n - 1 implies #[trigger] t[i] != '\n' by {
            assert(t[i] == s[i + 1]);
        }
        if n < s.len() {
            assert(t[n - 1] == s[n]);
        }
        lemma_line_end(t, n - 1);
    }
}

/// The first line feed is within the string.
proof fn lemma_line_end_bound(s: Seq<char>)
    ensures
        line_end(s) <= s.len(),
    decreases s.len(),
{
    if s.len() > 0 && s[0] != '\n' {
        lemma_line_end_bound(s.skip(1));
    }
}

/// `c` is one of the ASCII digits `0` to `9`.
pub open spec fn is_ascii_digit(c: char) -> bool {
    48 <= (c as u32) <= 57
}

/// Value of a string of decimal digits.
pub open spec fn decimal_value(s: Seq<char>) -> nat
    decreases s.len(),
{
    if s.len() == 0 {
        0
    } else {
        decimal_value(s.drop_last()) * 10 + ((s.last() as u32) - 48) as nat
    }
}

/// The digits of `s` after an optional leading `+`.
pub open spec fn unsigned_digits(s: Seq<char>) -> Seq<char> {
    if s.len() > 0 && s[0] == '+' {
        s.skip(1)
    } else {
        s
    }
}

/// Every character of `s` is an ASCII digit.
pub open spec fn all_ascii_digits(s: Seq<char>) -> bool {
    forall|k: int| 0 <= k < s.len() ==> is_ascii_digit(#[trigger] s[k])
}

/// What `str::parse::<u64>` reads from `s`: an optional `+` and at least one
/// decimal digit with nothing else, whose value fits in a `u64`.
pub open spec fn parse_u64_spec(s: Seq<char>) -> Option<nat> {
    let digits = unsigned_digits(s);
    if digits.len() > 0 && all_ascii_digits(digits) && decimal_value(digits) <= u64::MAX {
        Some(decimal_value(digits))
    } else {
        None
    }
}

/// A longer string of digits has at least the value of its prefix.
proof fn lemma_decimal_value_prefix(s: Seq<char>, k: int)
    requires
        0 <= k <= s.len(),
        forall|i: int| 0 <= i < s.len() ==> is_ascii_digit(#[trigger] s[i]),
    ensures
        decimal_value(s.take(k)) <= decimal_value(s),
    decreases s.len() - k,
{
    if k < s.len() {
        lemma_decimal_value_prefix(s, k + 1);
        assert(s.take(k + 1).drop_last() =~= s.take(k));
    } else {
        assert(s.take(k) =~= s);
    }
}

/// `Some(v)` as a natural number.
pub open spec fn opt_nat(o: Option<u64>) -> Option<nat> {
    match o {
        Some(v) => Some(v as nat),
        None => None,
    }
}

/// `str::parse::<u64>` on the characters `s[lo..hi]`.
fn parse_u64_range(s: &Vec<char>, lo: usize, hi: usize) -> (r: Option<u64>)
    requires
        lo <= hi <= s@.len(),
    ensures
        opt_nat(r) == parse_u64_spec(s@.subrange(lo as int, hi as int)),
{
    let ghost word = s@.subrange(lo as int, hi as int);
    if lo == hi {
        return None;
    }
    let mut i = lo;
    if s[i] == '+' {
        i = i + 1;
        if i == hi {
            return None;
        }
    }
    let ghost digits = s@.subrange(i as int, hi as int);
    proof {
        if s@[lo as int] == '+' {
            assert(digits =~= word.skip(1));
        } else {
            assert(digits =~= word);
        }
    }
    let start = i;
    let mut acc: u64 = 0;
    while i < hi
        invariant
            lo <= start <= i <= hi <= s@.len(),
            start < hi,
            digits == s@.subrange(start as int, hi as int),
            word == s@.subrange(lo as int, hi as int),
            digits == unsigned_digits(word),
            acc == decimal_value(digits.take(i - start)),
            forall|k: int| 0 <= k < i - start ==> is_ascii_digit(#[trigger] digits[k]),
        decreases hi - i,
    {
        let c = s[i];
        let u = c as u32;
        if u < 48 || u > 57 {
            proof {
                assert(digits[i - start] == s@[i as int]);
                assert(!is_ascii_digit(digits[i - start]));
                assert(!all_ascii_digits(digits));
            }
            return None;
        }
        let d: u64 = (u - 48) as u64;
        proof {
            assert(digits.take(i - start + 1).drop_last() =~= digits.take(i - start));
            assert(digits.take(i - start + 1).last() == s@[i as int]);
        }
        if acc > (u64::MAX - d) / 10 {
            proof {
                assert(acc * 10 + d > u64::MAX) by (nonlinear_arith)
                    requires
                        acc > (u64::MAX - d) / 10,
                        d <= 9,
                ;
                if all_ascii_digits(digits) {
                    lemma_decimal_value_prefix(digits, i - start + 1);
                    assert(decimal_value(digits.take(i - start + 1)) == acc * 10 + d);
                    assert(decimal_value(digits) > u64::MAX);
                }

            }
            return None;
        }
        proof {
            assert(acc * 10 + d <= u64::MAX) by (nonlinear_arith)
                requires
                    acc <= (u64::MAX - d) / 10,
                    d <= 9,
            ;
        }
        acc = acc * 10 + d;
        i = i + 1;
    }
    proof {
        assert(digits.take(i - start) =~= digits);
    }
    Some(acc)
}

/// The line at the start of `s`: the characters before the first line feed,
/// without the carriage return that ends them when a line feed follows.
pub open spec fn first_line(s: Seq<char>) -> Seq<char> {
    let n = line_end(s);
    let line = s.take(n as int);
    if n < s.len() && line.len() > 0 && line.last() == '\r' {
        line.drop_last()
    } else {
        line
    }
}

/// What the line `line` gives for `key`: when the line begins with `key`, the
/// first white-space separated word of the rest, read as a `u64`.
pub open spec fn line_value(line: Seq<char>, key: Seq<char>) -> Option<nat> {
    if key.len() <= line.len() && line.take(key.len() as int) == key {
        let rest = line.skip(key.len() as int);
        let word_start = rest.skip(leading_run(rest, true) as int);
        parse_u64_spec(word_start.take(leading_run(word_start, false) as int))
    } else {
        None
    }
}

/// The value that the first line of `s` giving one for `key` gives, as
/// `/proc/self/status` holds it (in KiB).
pub open spec fn kib_field_spec(s: Seq<char>, key: Seq<char>) -> Option<nat>
    decreases s.len(),
{
    if s.len() == 0 {
        None
    } else {
        match line_value(first_line(s), key) {
            Some(v) => Some(v),
            None => if line_end(s) < s.len() {
                kib_field_spec(s.skip(line_end(s) + 1int), key)
            } else {
                None
            },
        }
    }
}

/// The value of `key` in bytes: the field in KiB, times 1024.
pub open spec fn parse_kib_spec(s: Seq<char>, key: Seq<char>) -> Option<nat> {
    match kib_field_spec(s, key) {
        Some(v) => Some(v * 1024),
        None => None,
    }
}

/// The value of `key` in bytes fits in a `u64`.
pub open spec fn kib_fits(s: Seq<char>, key: Seq<char>) -> bool {
    match kib_field_spec(s, key) {
        Some(v) => v * 1024 <= u64::MAX,
        None => true,
    }
}

/// `line_value` for the line `s[lo..hi]`.
fn line_value_range(s: &Vec<char>, lo: usize, hi: usize, key: &Vec<char>) -> (r: Option<u64>)
    requires
        lo <= hi <= s@.len(),
    ensures
        opt_nat(r) == line_value(s@.subrange(lo as int, hi as int), key@),
{
    let ghost line = s@.subrange(lo as int, hi as int);
    let klen = key.len();
    if klen > hi - lo {
        return None;
    }
    let mut k: usize = 0;
    while k < klen
        invariant
            klen == key@.len(),
            klen <= hi - lo,
            lo <= hi <= s@.len(),
            0 <= k <= klen,
            line == s@.subrange(lo as int, hi as int),
            forall|j: int| 0 <= j < k ==> line[j] == key@[j],
        decreases klen - k,
    {
        if s[lo + k] != key[k] {
            proof {
                assert(line.take(klen as int)[k as int] != key@[k as int]);
            }
            return None;
        }
        k = k + 1;
    }
    proof {
        assert(line.take(klen as int) =~= key@);
    }
    let ghost rest = line.skip(klen as int);
    let mut p = lo + klen;
    while p < hi && is_white_space_char(s[p])
        invariant
            lo + klen <= p <= hi <= s@.len(),
            rest == s@.subrange(lo + klen, hi as int),
            forall|j: int| lo + klen <= j < p ==> is_white_space(#[trigger] s@[j]),
        decreases hi - p,
    {
        p = p + 1;
    }
    proof {
        assert(rest =~= s@.subrange(lo + klen, hi as int));
        assert forall|j: int| 0 <= j < p - lo - klen implies is_white_space(#[trigger] rest[j]) by {
            assert(rest[j] == s@[lo + klen + j]);
        }
        if p < hi {
            assert(rest[p - lo - klen] == s@[p as int]);
        }
        lemma_leading_run(rest, true, p - lo - klen);
    }
    let ghost word_start = rest.skip(leading_run(rest, true) as int);
    let mut q = p;
    while q < hi && !is_white_space_char(s[q])
        invariant
            p <= q <= hi <= s@.len(),
            forall|j: int| p <= j < q ==> !is_white_space(#[trigger] s@[j]),
        decreases hi - q,
    {
        q = q + 1;
    }
    proof {
        assert(word_start =~= s@.subrange(p as int, hi as int));
        assert forall|j: int| 0 <= j < q - p implies is_white_space(#[trigger] word_start[j]) == false by {
            assert(word_start[j] == s@[p + j]);
        }
        if q < hi {
            assert(word_start[q - p] == s@[q as int]);
        }
        lemma_leading_run(word_start, false, q - p);
        assert(word_start.take(q - p) =~= s@.subrange(p as int, q as int));
    }
    parse_u64_range(s, p, q)
}

/// The value of field `key` of the process status text `contents`, in the
/// unit the text gives it (KiB): the number after `key` on the first line
/// that begins with `key` and has one.
pub fn kib_field(contents: &str, key: &str) -> (r: Option<u64>)
    ensures
        opt_nat(r) == kib_field_spec(contents@, key@),
{
    let s = chars_of(contents);
    let k = chars_of(key);
    let n = s.len();
    let mut start: usize = 0;
    proof {
        assert(s@.skip(0) =~= s@);
    }
    while start < n
        invariant
            n == s@.len(),
            s@ == contents@,
            k@ == key@,
            start <= n,
            kib_field_spec(s@, k@) == kib_field_spec(s@.skip(start as int), k@),
        decreases n - start,
    {
        let ghost rest = s@.skip(start as int);
        let mut end = start;
        while end < n && s[end] != '\n'
            invariant
                start <= end <= n,
                n == s@.len(),
                forall|j: int| start <= j < end ==> #[trigger] s@[j] != '\n',
            decreases n - end,
        {
            end = end + 1;
        }
        proof {
            assert forall|j: int| 0 <= j < end - start implies #[trigger] rest[j] != '\n' by {
                assert(rest[j] == s@[start + j]);
            }
            if end < n {
                assert(rest[end - start] == s@[end as int]);
            }
            lemma_line_end(rest, end - start);
        }
        let mut stop = end;
        if end < n && end > start && s[end - 1] == '\r' {
            stop = end - 1;
        }
        proof {
            let line = rest.take((end - start) as int);
            if end < n && end > start && s@[end - 1] == '\r' {
                assert(line.last() == s@[end - 1]);
                assert(first_line(rest) =~= s@.subrange(start as int, stop as int));
            } else {
                if end < n && end > start {
                    assert(line.last() == s@[end - 1]);
                }
                assert(first_line(rest) =~= s@.subrange(start as int, stop as int));
            }
        }
        let v = line_value_range(&s, start, stop, &k);
        if v.is_some() {
            return v;
        }
        if end == n {
            return None;
        }
        proof {
            assert(rest.skip(end - start + 1) =~= s@.skip(end + 1));
        }
        start = end + 1;
    }
    proof {
        assert(s@.skip(start as int).len() == 0);
    }
    None
}

/// The value of field `key` of the process status text `contents` in bytes
/// (`parse_kib`): the field in KiB times 1024.
pub fn parse_kib(contents: &str, key: &str) -> (r: Option<u64>)
    requires
        kib_fits(contents@, key@),
    ensures
        opt_nat(r) == parse_kib_spec(contents@, key@),
{
    match kib_field(contents, key) {
        Some(v) => Some(v * 1024),
        None => None,
    }
}

/// Resident set size of the process and its peak, where they are known.
#[derive(Debug, Clone, Copy, Default)]
pub struct ProcessMemoryUsage {
    pub resident_bytes: Option<u64>,
    pub peak_resident_bytes: Option<u64>,
}

/// Memory use of the process read from its status text `status` (the
/// contents of `/proc/self/status`): `VmRSS` and `VmHWM` in bytes.
pub fn process_memory_usage(status: &str) -> (usage: ProcessMemoryUsage)
    requires
        kib_fits(status@, "VmRSS:"@),
        kib_fits(status@, "VmHWM:"@),
    ensures
        opt_nat(usage.resident_bytes) == parse_kib_spec(status@, "VmRSS:"@),
        opt_nat(usage.peak_resident_bytes) == parse_kib_spec(status@, "VmHWM:"@),
{
    ProcessMemoryUsage {
        resident_bytes: parse_kib(status, "VmRSS:"),
        peak_resident_bytes: parse_kib(status, "VmHWM:"),
    }
}

/// `2^k`.
pub open spec fn two_pow(k: nat) -> nat
    decreases k,
{
    if k == 0 {
        1
    } else {
        2 * two_pow((k - 1) as nat)
    }
}

/// `n / d` rounded to the nearest integer, halves to the even one.
pub open spec fn round_half_even(n: nat, d: nat) -> nat {
    let q = n / d;
    let r = n % d;
    if 2 * r < d {
        q
    } else if 2 * r > d {
        q + 1
    } else if q % 2 == 0 {
        q
    } else {
        q + 1
    }
}

/// Number of halvings that bring `n` below `2^53`: the number of low bits of
/// `n` that a `f64` cannot hold.
pub open spec fn f64_shift(n: nat) -> nat
    decreases n,
{
    if n < 0x20_0000_0000_0000 {
        0
    } else {
        1 + f64_shift(n / 2)
    }
}

/// The value of `n as f64`: `n` rounded to 53 significant bits, halves to
/// even.
pub open spec fn f64_value(n: nat) -> nat {
    let unit = two_pow(f64_shift(n));
    round_half_even(n, unit) * unit
}

/// The ASCII digit for `d < 10`.
pub open spec fn digit_char(d: nat) -> char {
    (48 + d) as char
}

/// Decimal digits of `n`, most significant first, without leading zeros
/// (what `{}` prints for an unsigned integer).
pub open spec fn decimal_chars(n: nat) -> Seq<char>
    decreases n,
{
    if n < 10 {
        seq![digit_char(n)]
    } else {
        decimal_chars(n / 10).push(digit_char(n % 10))
    }
}

/// `h` hundredths written with two decimals.
pub open spec fn two_decimals(h: nat) -> Seq<char> {
    decimal_chars(h / 100) + seq!['.', digit_char((h % 100) / 10), digit_char(h % 10)]
}

/// `{:.2}` of `bytes as f64 / 2^k`: the number of hundredths, rounded
/// halves to even, written with two decimals.
pub open spec fn scaled_two_decimals(bytes: nat, k: nat) -> Seq<char> {
    two_decimals(round_half_even(f64_value(bytes) * 100, two_pow(k)))
}

/// What `format_bytes` prints for `bytes`: the size in GiB, MiB or KiB with
/// two decimals, in the largest of these units that is at most the size,
/// or in bytes below one KiB. (`bytes as f64` reaches a power of two of
/// these units exactly when `bytes` does.)
pub open spec fn format_bytes_spec(bytes: nat) -> Seq<char> {
    if bytes >= two_pow(30) {
        scaled_two_decimals(bytes, 30) + seq![' ', 'G', 'i', 'B']
    } else if bytes >= two_pow(20) {
        scaled_two_decimals(bytes, 20) + seq![' ', 'M', 'i', 'B']
    } else if bytes >= two_pow(10) {
        scaled_two_decimals(bytes, 10) + seq![' ', 'K', 'i', 'B']
    } else {
        decimal_chars(bytes) + seq![' ', 'B']
    }
}

/// Appends the decimal digits of `n`.
fn push_decimal(out: &mut Vec<char>, n: u128)
    ensures
        final(out)@ == old(out)@ + decimal_chars(n as nat),
    decreases n,
{
    if n >= 10 {
        push_decimal(out, n / 10);
    }
    let d: u8 = (n % 10) as u8;
    out.push((48u8 + d) as char);
    proof {
        assert(((48u8 + d) as char) == digit_char((n % 10) as nat));
    }
}

/// `n / d` rounded to the nearest integer, halves to the even one.
fn round_half_even_u128(n: u128, d: u128) -> (r: u128)
    requires
        d > 0,
        n / d < u128::MAX,
    ensures
        r == round_half_even(n as nat, d as nat),
{
    let q = n / d;
    let r = n % d;
    if r < d - r {
        q
    } else if r > d - r {
        q + 1
    } else if q % 2 == 0 {
        q
    } else {
        q + 1
    }
}

/// `2^k` for `k <= 30`.
proof fn lemma_two_pow_values()
    ensures
        two_pow(10) == 0x400,
        two_pow(20) == 0x10_0000,
        two_pow(30) == 0x4000_0000,
{
    reveal_with_fuel(two_pow, 31);
}

/// Human-readable size of `bytes` (`format_bytes`).
pub fn format_bytes(bytes: u64) -> (text: String)
    ensures
        text@ == format_bytes_spec(bytes as nat),
{
    proof {
        lemma_two_pow_values();
    }
    let mut out: Vec<char> = Vec::new();
    if bytes < 0x400 {
        push_decimal(&mut out, bytes as u128);
        out.push(' ');
        out.push('B');
        return string_from_chars(out);
    }
    let n: u128 = bytes as u128;
    let mut q: u128 = n;
    let mut unit: u128 = 1;
    let ghost mut e: nat = 0;
    while q >= 0x20_0000_0000_0000
        invariant
            n == bytes as u128,
            unit == two_pow(e),
            q == n / unit,
            1 <= unit <= 0x1000,
            f64_shift(n as nat) == e + f64_shift(q as nat),
        decreases q,
    {
        proof {
            vstd::arithmetic::div_mod::lemma_div_denominator(n as int, unit as int, 2);
            assert(unit * 0x20_0000_0000_0000 <= unit * q) by (nonlinear_arith)
                requires
                    q >= 0x20_0000_0000_0000,
            ;
            vstd::arithmetic::div_mod::lemma_fundamental_div_mod(n as int, unit as int);
            assert(unit * 2 <= 0x1000) by (nonlinear_arith)
                requires
                    unit * 0x20_0000_0000_0000 <= n,
                    n <= u64::MAX,
                    unit >= 1,
            ;
        }
        q = q / 2;
        unit = unit * 2;
        proof {
            e = e + 1;
        }
    }
    let rounded = round_half_even_u128(n, unit);
    proof {
        assert(rounded <= q + 1);
        assert(rounded * unit <= 0x2_0000_0000_0000_0000) by (nonlinear_arith)
            requires
                rounded <= q + 1,
                q < 0x20_0000_0000_0000,
                unit <= 0x1000,
        ;
    }
    let value: u128 = rounded * unit;
    let scale: u128 = if bytes >= 0x4000_0000 {
        0x4000_0000
    } else if bytes >= 0x10_0000 {
        0x10_0000
    } else {
        0x400
    };
    proof {
        assert(value * 100 <= 0xc8_0000_0000_0000_0000);
        assert((value * 100) as u128 / scale < u128::MAX) by (nonlinear_arith)
            requires
                scale >= 1,
                value * 100 <= 0xc8_0000_0000_0000_0000,
        ;
    }
    let hundredths = round_half_even_u128(value * 100, scale);
    push_decimal(&mut out, hundredths / 100);
    out.push('.');
    let tens: u8 = ((hundredths % 100) / 10) as u8;
    let ones: u8 = (hundredths % 10) as u8;
    out.push((48u8 + tens) as char);
    out.push((48u8 + ones) as char);
    out.push(' ');
    if bytes >= 0x4000_0000 {
        out.push('G');
    } else if bytes >= 0x10_0000 {
        out.push('M');
    } else {
        out.push('K');
    }
    out.push('i');
    out.push('B');
    proof {
        assert(((48u8 + tens) as char) == digit_char(((hundredths % 100) / 10) as nat));
        assert(((48u8 + ones) as char) == digit_char((hundredths % 10) as nat));
        assert(f64_value(bytes as nat) == value);
        assert(out@ =~= format_bytes_spec(bytes as nat));
    }
    string_from_chars(out)
}

/// The string made of `chars`, in order (`String: FromIterator<char>`).
#[verifier::external_body]
fn string_from_chars(chars: Vec<char>) -> (s: String)
    ensures
        s@ == chars@,
{
    chars.into_iter().collect()
}

/// Appends the characters of `text`.
fn push_str(out: &mut Vec<char>, text: &str)
    ensures
        final(out)@ == old(out)@ + text@,
{
    let chars = chars_of(text);
    let ghost start = out@;
    let n = chars.len();
    let mut k: usize = 0;
    while k < n
        invariant
            n == chars@.len(),
            0 <= k <= n,
            out@ == start + chars@.take(k as int),
        decreases n - k,
    {
        out.push(chars[k]);
        k = k + 1;
        proof {
            assert(chars@.take(k as int) =~= chars@.take(k - 1).push(chars@[k - 1]));
        }
    }
    proof {
        assert(chars@.take(n as int) =~= chars@);
    }
}

/// Whether memory tracing is on for the value `setting` of the environment
/// variable `RSRS_TRACE_MEMORY` (`None` when it is unset or not Unicode):
/// any value but `0` turns it on.
pub fn memory_trace_enabled(setting: Option<&str>) -> (on: bool)
    ensures
        on == (match setting {
            Some(v) => v@ != seq!['0'],
            None => false,
        }),
{
    match setting {
        Some(v) => {
            let chars = chars_of(v);
            if chars.len() == 1 && chars[0] == '0' {
                proof {
                    assert(v@ =~= seq!['0']);
                }
                false
            } else {
                proof {
                    if chars.len() == 1 {
                        assert(v@[0] != seq!['0'][0]);
                    }
                }
                true
            }
        },
        None => false,
    }
}

/// Growth of the resident set size, in bytes, between two reports of a
/// memory trace, for the value `setting` of `RSRS_TRACE_MEMORY_DELTA_MB`:
/// that many MiB when it reads as a `u64`, else 4 MiB.
pub open spec fn trace_delta_bytes_spec(setting: Option<Seq<char>>) -> nat {
    match setting {
        Some(v) => match parse_u64_spec(v) {
            Some(mb) => mb * 1024 * 1024,
            None => 4 * 1024 * 1024,
        },
        None => 4 * 1024 * 1024,
    }
}

/// The view of an optional string.
pub open spec fn opt_view(o: Option<&str>) -> Option<Seq<char>> {
    match o {
        Some(v) => Some(v@),
        None => None,
    }
}

/// Growth of the resident set size between two reports of a memory trace
/// (`trace_delta_bytes`).
pub fn trace_delta_bytes(setting: Option<&str>) -> (delta: u64)
    requires
        trace_delta_bytes_spec(opt_view(setting)) <= u64::MAX,
    ensures
        delta == trace_delta_bytes_spec(opt_view(setting)),
{
    match setting {
        Some(v) => {
            let chars = chars_of(v);
            proof {
                assert(chars@.subrange(0, chars@.len() as int) =~= v@);
            }
            match parse_u64_range(&chars, 0, chars.len()) {
                Some(mb) => mb * 1024 * 1024,
                None => 4 * 1024 * 1024,
            }
        },
        None => 4 * 1024 * 1024,
    }
}

/// Whether a memory trace reports a resident set size of `rss` bytes when it
/// last reported `last_rss` (0 for never): on the first report, and once the
/// size has grown by `delta` bytes (the sum saturating at `u64::MAX`).
pub fn trace_growth_due(last_rss: u64, rss: u64, delta: u64) -> (due: bool)
    ensures
        due == !(last_rss != 0 && rss < last_rss.saturating_add(delta)),
{
    !(last_rss != 0 && rss < last_rss.saturating_add(delta))
}

/// A size in readable form, or `unavailable`.
pub open spec fn bytes_or_unavailable(bytes: Option<u64>) -> Seq<char> {
    match bytes {
        Some(b) => format_bytes_spec(b as nat),
        None => "unavailable"@,
    }
}

/// The estimate of temporary memory that ends a report line, if any.
pub open spec fn estimate_suffix(estimated: Option<u64>) -> Seq<char> {
    match estimated {
        Some(b) => ", est tmp ~= "@ + format_bytes_spec(b as nat),
        None => Seq::empty(),
    }
}

/// Line of a memory trace for `label` at a resident set size of `rss` bytes.
pub open spec fn trace_line_spec(
    label: Seq<char>,
    rss: u64,
    peak: Option<u64>,
    estimated: Option<u64>,
) -> Seq<char> {
    "Memory trace ["@ + label + "]: rss = "@ + format_bytes_spec(rss as nat) + ", peak = "@
        + bytes_or_unavailable(peak) + estimate_suffix(estimated)
}

/// Line of a memory event for `label` with the memory use `usage`.
pub open spec fn event_line_spec(
    label: Seq<char>,
    usage: ProcessMemoryUsage,
    estimated: Option<u64>,
) -> Seq<char> {
    "Memory event ["@ + label + "]: rss = "@ + bytes_or_unavailable(usage.resident_bytes)
        + ", peak = "@ + bytes_or_unavailable(usage.peak_resident_bytes) + estimate_suffix(
        estimated,
    )
}

/// Appends a size in readable form, or `unavailable`.
fn push_bytes_or_unavailable(out: &mut Vec<char>, bytes: Option<u64>)
    ensures
        final(out)@ == old(out)@ + bytes_or_unavailable(bytes),
{
    match bytes {
        Some(b) => {
            let text = format_bytes(b);
            push_str(out, text.as_str());
        },
        None => push_str(out, "unavailable"),
    }
}

/// Appends the estimate of temporary memory, if any.
fn push_estimate(out: &mut Vec<char>, estimated: Option<u64>)
    ensures
        final(out)@ == old(out)@ + estimate_suffix(estimated),
{
    match estimated {
        Some(b) => {
            push_str(out, ", est tmp ~= ");
            let text = format_bytes(b);
            push_str(out, text.as_str());
        },
        None => {
            assert(out@ =~= out@ + Seq::<char>::empty());
        },
    }
}

/// The line that `trace_memory_growth` prints for `label`.
pub fn trace_line(label: &str, rss: u64, peak: Option<u64>, estimated: Option<u64>) -> (line:
    String)
    ensures
        line@ == trace_line_spec(label@, rss, peak, estimated),
{
    let mut out: Vec<char> = Vec::new();
    push_str(&mut out, "Memory trace [");
    push_str(&mut out, label);
    push_str(&mut out, "]: rss = ");
    let text = format_bytes(rss);
    push_str(&mut out, text.as_str());
    push_str(&mut out, ", peak = ");
    push_bytes_or_unavailable(&mut out, peak);
    push_estimate(&mut out, estimated);
    proof {
        assert(out@ =~= trace_line_spec(label@, rss, peak, estimated));
    }
    string_from_chars(out)
}

/// The line that `trace_memory_event` prints for `label`.
pub fn event_line(label: &str, usage: ProcessMemoryUsage, estimated: Option<u64>) -> (line: String)
    ensures
        line@ == event_line_spec(label@, usage, estimated),
{
    let mut out: Vec<char> = Vec::new();
    push_str(&mut out, "Memory event [");
    push_str(&mut out, label);
    push_str(&mut out, "]: rss = ");
    push_bytes_or_unavailable(&mut out, usage.resident_bytes);
    push_str(&mut out, ", peak = ");
    push_bytes_or_unavailable(&mut out, usage.peak_resident_bytes);
    push_estimate(&mut out, estimated);
    proof {
        assert(out@ =~= event_line_spec(label@, usage, estimated));
    }
    string_from_chars(out)
}

} // verus!
