//! Text as sequences of `char`: whitespace, decimal numbers, and the pieces
//! of `str` handling that the assembler relies on.
use vstd::prelude::*;

verus! {

/// Whether a char is whitespace: the Unicode `White_Space` property, which
/// Rust's `char::is_whitespace` tests.
pub open spec fn is_ws(c: char) -> bool {
    let u = c as u32;
    (0x09 <= u && u <= 0x0D) || u == 0x20 || u == 0x85 || u == 0xA0 || u == 0x1680 || (0x2000 <= u
        && u <= 0x200A) || u == 0x2028 || u == 0x2029 || u == 0x202F || u == 0x205F || u == 0x3000
}

/// Tests `is_ws`.
pub fn is_whitespace(c: char) -> (b: bool)
    ensures
        b == is_ws(c),
{
    let u = c as u32;
    (0x09 <= u && u <= 0x0D) || u == 0x20 || u == 0x85 || u == 0xA0 || u == 0x1680 || (0x2000 <= u
        && u <= 0x200A) || u == 0x2028 || u == 0x2029 || u == 0x202F || u == 0x205F || u == 0x3000
}

/// The chars of a string slice, in order.
pub fn chars_of(s: &str) -> (v: Vec<char>)
    ensures
        v@ == s@,
{
    let mut v: Vec<char> = Vec::new();
    for c in it: s.chars()
        invariant
            v@ == it.seq().take(it.index() as int),
    {
        v.push(c);
    }
    v
}

/// Appends a char: std's `String::push`.
#[verifier::external_body]
fn push_char(s: &mut String, c: char)
    ensures
        final(s)@ == old(s)@.push(c),
{
    s.push(c);
}

/// Appends every char of `cs`, in order.
pub fn push_chars(s: &mut String, cs: &[char])
    ensures
        final(s)@ == old(s)@ + cs@,
{
    let ghost start = s@;
    let mut i: usize = 0;
    while i < cs.len()
        invariant
            i <= cs@.len(),
            s@ == start + cs@.take(i as int),
        decreases cs@.len() - i,
    {
        push_char(s, cs[i]);
        i = i + 1;
        assert(cs@.take(i as int) == cs@.take((i - 1) as int).push(cs@[i - 1]));
    }
    assert(cs@.take(i as int) == cs@);
}

/// The char of a decimal digit.
pub open spec fn digit_char(d: int) -> char {
    (d + 48) as char
}

/// The decimal text of a natural number, without leading zeros.
pub open spec fn decimal(n: nat) -> Seq<char>
    decreases n,
{
    if n < 10 {
        seq![digit_char(n as int)]
    } else {
        decimal(n / 10).push(digit_char((n % 10) as int))
    }
}

/// The decimal text of an integer: a `-` before the digits of a negative one.
pub open spec fn signed_decimal(n: int) -> Seq<char> {
    if n < 0 {
        seq!['-'] + decimal((-n) as nat)
    } else {
        decimal(n as nat)
    }
}

/// Appends the decimal text of `n`.
pub fn push_decimal(s: &mut String, n: u64)
    ensures
        final(s)@ == old(s)@ + decimal(n as nat),
    decreases n,
{
    if n >= 10 {
        push_decimal(s, n / 10);
    }
    let d = (n % 10) as u8;
    push_char(s, (d + 48) as char);
}

/// Appends the decimal text of `n`, with a `-` when it is negative.
pub fn push_signed_decimal(s: &mut String, n: i64)
    ensures
        final(s)@ == old(s)@ + signed_decimal(n as int),
{
    if n < 0 {
        push_char(s, '-');
        let m: u64 = if n == i64::MIN { 0x8000_0000_0000_0000u64 } else { (-n) as u64 };
        push_decimal(s, m);
        assert(s@ == old(s)@ + signed_decimal(n as int));
    } else {
        push_decimal(s, n as u64);
    }
}


/// The index of the first `c` in `s`, or the length of `s` when there is none.
pub open spec fn index_of(s: Seq<char>, c: char) -> nat
    decreases s.len(),
{
    if s.len() == 0 {
        0
    } else if s[0] == c {
        0
    } else {
        1 + index_of(s.drop_first(), c)
    }
}

/// `index_of` is at most the length.
pub proof fn lemma_index_of_le(s: Seq<char>, c: char)
    ensures
        index_of(s, c) <= s.len(),
    decreases s.len(),
{
    if s.len() > 0 {
        lemma_index_of_le(s.drop_first(), c);
    }
}

/// `index_of` is the first index holding the char, or the length.
pub proof fn lemma_index_of(s: Seq<char>, c: char, k: int)
    requires
        0 <= k <= s.len(),
        forall|j: int| 0 <= j < k ==> s[j] != c,
        k < s.len() ==> s[k] == c,
    ensures
        index_of(s, c) == k,
    decreases k,
{
    if k > 0 {
        lemma_index_of(s.drop_first(), c, k - 1);
    }
}

/// The contents of a sequence of char vectors.
pub open spec fn views(vs: Seq<Vec<char>>) -> Seq<Seq<char>> {
    vs.map_values(|v: Vec<char>| v@)
}

/// The contents after a push are the contents before, with one more.
pub proof fn lemma_views_push(vs: Seq<Vec<char>>, v: Vec<char>)
    ensures
        views(vs.push(v)) == views(vs).push(v@),
{
    assert(views(vs.push(v)) =~= views(vs).push(v@));
}

/// `s` without one `\r` at its end.
pub open spec fn strip_cr(s: Seq<char>) -> Seq<char> {
    if s.len() > 0 && s.last() == '\r' {
        s.drop_last()
    } else {
        s
    }
}

/// The lines of a text, as Rust's `str::lines` gives them: split at each
/// `\n`, a `\r` just before the `\n` removed, and no empty line after a final
/// `\n`.
pub open spec fn lines(s: Seq<char>) -> Seq<Seq<char>>
    decreases s.len(),
{
    if s.len() == 0 {
        seq![]
    } else {
        let k = index_of(s, '\n');
        if k >= s.len() {
            seq![s]
        } else {
            seq![strip_cr(s.take(k as int))] + lines(s.skip(k + 1 as int))
        }
    }
}

/// Splits a text into its lines.
pub fn split_lines(s: &[char]) -> (out: Vec<Vec<char>>)
    ensures
        views(out@) == lines(s@),
{
    let mut out: Vec<Vec<char>> = Vec::new();
    let mut line: Vec<char> = Vec::new();
    let mut start: usize = 0;
    let mut i: usize = 0;
    assert(s@.skip(0) == s@);
    assert(views(out@) == Seq::<Seq<char>>::empty());
    while i < s.len()
        invariant
            start <= i <= s@.len(),
            line@ == s@.subrange(start as int, i as int),
            forall|j: int| start <= j < i ==> s@[j] != '\n',
            lines(s@) == views(out@) + lines(s@.skip(start as int)),
        decreases s@.len() - i,
    {
        if s[i] == '\n' {
            let ghost rest = s@.skip(start as int);
            proof {
                lemma_index_of(rest, '\n', (i - start) as int);
                assert(rest.take((i - start) as int) == line@);
                assert(rest.skip((i - start) + 1) == s@.skip(i + 1));
            }
            let n = line.len();
            if n > 0 && line[n - 1] == '\r' {
                line.pop();
            }
            let ghost before = out@;
            out.push(line);
            proof {
                lemma_views_push(before, out@.last());
            }
            line = Vec::new();
            start = i + 1;
        } else {
            line.push(s[i]);
        }
        i = i + 1;
    }
    let ghost rest = s@.skip(start as int);
    if start < s.len() {
        proof {
            lemma_index_of(rest, '\n', rest.len() as int);
            assert(line@ == rest);
        }
        let ghost before = out@;
        out.push(line);
        proof {
            lemma_views_push(before, out@.last());
        }
    } else {
        assert(rest.len() == 0);
    }
    out
}

/// `s` without its leading whitespace.
pub open spec fn trim_start(s: Seq<char>) -> Seq<char>
    decreases s.len(),
{
    if s.len() > 0 && is_ws(s[0]) {
        trim_start(s.drop_first())
    } else {
        s
    }
}

/// `s` without its trailing whitespace.
pub open spec fn trim_end(s: Seq<char>) -> Seq<char>
    decreases s.len(),
{
    if s.len() > 0 && is_ws(s.last()) {
        trim_end(s.drop_last())
    } else {
        s
    }
}

/// `s` without leading and trailing whitespace, as Rust's `str::trim`.
pub open spec fn trim(s: Seq<char>) -> Seq<char> {
    trim_end(trim_start(s))
}

/// The bounds of the trimmed part of `s`.
pub fn trim_bounds(s: &[char]) -> (r: (usize, usize))
    ensures
        r.0 <= r.1 <= s@.len(),
        s@.subrange(r.0 as int, r.1 as int) == trim(s@),
{
    let mut a: usize = 0;
    assert(s@.skip(0) == s@);
    while a < s.len() && is_whitespace(s[a])
        invariant
            a <= s@.len(),
            trim_start(s@) == trim_start(s@.skip(a as int)),
        decreases s@.len() - a,
    {
        assert(s@.skip(a as int).drop_first() == s@.skip(a + 1));
        a = a + 1;
    }
    assert(trim_start(s@) == s@.skip(a as int));
    let mut b: usize = s.len();
    while b > a && is_whitespace(s[b - 1])
        invariant
            a <= b <= s@.len(),
            trim(s@) == trim_end(s@.subrange(a as int, b as int)),
        decreases b,
    {
        assert(s@.subrange(a as int, b as int).drop_last() == s@.subrange(a as int, b - 1));
        b = b - 1;
    }
    (a, b)
}

/// What std's `char::to_uppercase` yields for `c`: the Unicode uppercase
/// mapping of `c`, one or more chars.
pub uninterp spec fn char_uppercase(c: char) -> Seq<char>;

/// The chars std's `char::to_uppercase` yields for `c`, collected.
#[verifier::external_body]
fn std_char_uppercase(c: char) -> (r: Vec<char>)
    ensures
        r@ == char_uppercase(c),
{
    c.to_uppercase().collect()
}

/// The ASCII uppercase of an ASCII char: `a`..`z` become `A`..`Z`.
pub open spec fn ascii_upper(c: char) -> char {
    if 'a' <= c && c <= 'z' {
        ((c as u32) - 32) as char
    } else {
        c
    }
}

/// The uppercase of one char: the ASCII mapping for ASCII chars, the Unicode
/// mapping of std otherwise.
pub open spec fn upper_char(c: char) -> Seq<char> {
    if (c as u32) < 128 {
        seq![ascii_upper(c)]
    } else {
        char_uppercase(c)
    }
}

/// The uppercase of a text, char by char, as Rust's `str::to_uppercase`.
pub open spec fn upper(s: Seq<char>) -> Seq<char>
    decreases s.len(),
{
    if s.len() == 0 {
        seq![]
    } else {
        upper(s.drop_last()) + upper_char(s.last())
    }
}

/// The uppercase of `s`.
pub fn to_upper(s: &[char]) -> (out: Vec<char>)
    ensures
        out@ == upper(s@),
{
    let mut out: Vec<char> = Vec::new();
    let mut i: usize = 0;
    assert(s@.take(0) == Seq::<char>::empty());
    while i < s.len()
        invariant
            i <= s@.len(),
            out@ == upper(s@.take(i as int)),
        decreases s@.len() - i,
    {
        let c = s[i];
        let ghost before = out@;
        if (c as u32) < 128 {
            if 'a' <= c && c <= 'z' {
                out.push((((c as u32) - 32) as u8) as char);
            } else {
                out.push(c);
            }
            assert(out@ == before + upper_char(c));
        } else {
            let u = std_char_uppercase(c);
            append_chars(&mut out, &u);
        }
        assert(s@.take(i + 1).drop_last() == s@.take(i as int));
        i = i + 1;
    }
    assert(s@.take(i as int) == s@);
    out
}

/// Appends every char of `src` to `out`, in order.
pub fn append_chars(out: &mut Vec<char>, src: &[char])
    ensures
        final(out)@ == old(out)@ + src@,
{
    let ghost start = out@;
    let mut i: usize = 0;
    while i < src.len()
        invariant
            i <= src@.len(),
            out@ == start + src@.take(i as int),
        decreases src@.len() - i,
    {
        out.push(src[i]);
        i = i + 1;
        assert(src@.take(i as int) == src@.take((i - 1) as int).push(src@[i - 1]));
    }
    assert(src@.take(i as int) == src@);
}

/// The index of the first whitespace char of `s`, or its length.
pub open spec fn ws_index(s: Seq<char>) -> nat
    decreases s.len(),
{
    if s.len() == 0 {
        0
    } else if is_ws(s[0]) {
        0
    } else {
        1 + ws_index(s.drop_first())
    }
}

/// `ws_index` is at most the length.
pub proof fn lemma_ws_index_le(s: Seq<char>)
    ensures
        ws_index(s) <= s.len(),
    decreases s.len(),
{
    if s.len() > 0 {
        lemma_ws_index_le(s.drop_first());
    }
}

proof fn lemma_ws_index(s: Seq<char>, k: int)
    requires
        0 <= k <= s.len(),
        forall|j: int| 0 <= j < k ==> !is_ws(s[j]),
        k < s.len() ==> is_ws(s[k]),
    ensures
        ws_index(s) == k,
    decreases k,
{
    if k > 0 {
        lemma_ws_index(s.drop_first(), k - 1);
    }
}

/// The words of `s`: its maximal runs of non-whitespace chars, in order, as
/// Rust's `str::split_whitespace`.
pub open spec fn words(s: Seq<char>) -> Seq<Seq<char>>
    decreases s.len(),
{
    if s.len() == 0 {
        seq![]
    } else if is_ws(s[0]) {
        words(s.drop_first())
    } else {
        let k = ws_index(s);
        proof {
            lemma_ws_index_le(s);
        }
        seq![s.take(k as int)] + words(s.skip(k as int))
    }
}

/// Splits `s` into its words.
pub fn split_words(s: &[char]) -> (out: Vec<Vec<char>>)
    ensures
        views(out@) == words(s@),
{
    let mut out: Vec<Vec<char>> = Vec::new();
    let mut word: Vec<char> = Vec::new();
    let mut start: usize = 0;
    let mut i: usize = 0;
    assert(s@.skip(0) == s@);
    assert(views(out@) == Seq::<Seq<char>>::empty());
    while i < s.len()
        invariant
            start <= i <= s@.len(),
            word@ == s@.subrange(start as int, i as int),
            forall|j: int| start <= j < i ==> !is_ws(s@[j]),
            words(s@) == views(out@) + words(s@.skip(start as int)),
        decreases s@.len() - i,
    {
        if is_whitespace(s[i]) {
            let ghost rest = s@.skip(start as int);
            assert(s@.skip(i as int).drop_first() == s@.skip(i + 1));
            assert(words(s@.skip(i as int)) == words(s@.skip(i + 1)));
            if start < i {
                proof {
                    lemma_ws_index(rest, (i - start) as int);
                    assert(rest.take((i - start) as int) == word@);
                    assert(rest.skip((i - start) as int) == s@.skip(i as int));
                }
                assert(words(rest) == seq![word@] + words(s@.skip(i as int)));
                let ghost before = out@;
                out.push(word);
                proof {
                    lemma_views_push(before, out@.last());
                }
                word = Vec::new();
            }
            start = i + 1;
        } else {
            word.push(s[i]);
        }
        i = i + 1;
    }
    let ghost rest = s@.skip(start as int);
    if start < s.len() {
        proof {
            lemma_ws_index(rest, rest.len() as int);
            assert(word@ == rest);
            assert(rest.skip(rest.len() as int) == Seq::<char>::empty());
            assert(rest.take(rest.len() as int) == rest);
            assert(rest[0] == s@[start as int]);
            assert(!is_ws(rest[0]));
            assert(words(rest.skip(rest.len() as int)) == Seq::<Seq<char>>::empty());
            assert(seq![rest] + Seq::<Seq<char>>::empty() == seq![rest]);
            assert(words(rest) == seq![rest]);
        }
        let ghost before = out@;
        out.push(word);
        proof {
            lemma_views_push(before, out@.last());
        }
    } else {
        assert(rest.len() == 0);
    }
    out
}

/// Whether a char is an ASCII decimal digit.
pub open spec fn is_digit(c: char) -> bool {
    '0' <= c && c <= '9'
}

/// Whether every char of `s` is a decimal digit.
pub open spec fn all_digits(s: Seq<char>) -> bool {
    forall|i: int| 0 <= i < s.len() ==> is_digit(#[trigger] s[i])
}

/// The number a sequence of decimal digits stands for.
pub open spec fn digits_value(s: Seq<char>) -> nat
    decreases s.len(),
{
    if s.len() == 0 {
        0
    } else {
        digits_value(s.drop_last()) * 10 + ((s.last() as int - 48) as nat)
    }
}

/// The integer Rust's `from_str` reads for an integer type, before its range
/// is checked: an optional `+` (or `-`, for a signed type), then one or more
/// ASCII digits.
pub open spec fn parse_decimal(s: Seq<char>, signed: bool) -> Option<int> {
    if s.len() == 0 {
        None
    } else {
        let neg = signed && s[0] == '-';
        let digits = if s[0] == '+' || neg { s.drop_first() } else { s };
        if digits.len() == 0 || !all_digits(digits) {
            None
        } else if neg {
            Some(-(digits_value(digits) as int))
        } else {
            Some(digits_value(digits) as int)
        }
    }
}

/// What `i64::from_str` gives.
pub open spec fn parse_i64(s: Seq<char>) -> Option<i64> {
    match parse_decimal(s, true) {
        Some(v) => if i64::MIN <= v <= i64::MAX { Some(v as i64) } else { None },
        None => None,
    }
}

/// What `from_str` gives for an unsigned type whose largest value is `max`.
pub open spec fn parse_unsigned(s: Seq<char>, max: nat) -> Option<nat> {
    match parse_decimal(s, false) {
        Some(v) => if 0 <= v <= max { Some(v as nat) } else { None },
        None => None,
    }
}

proof fn lemma_digits_value_prefix(s: Seq<char>, j: int)
    requires
        0 <= j <= s.len(),
        all_digits(s),
    ensures
        digits_value(s.take(j)) <= digits_value(s),
    decreases s.len() - j,
{
    if j < s.len() {
        lemma_digits_value_prefix(s, j + 1);
        let t = s.take(j + 1);
        assert(t.drop_last() == s.take(j));
        assert(is_digit(s[j]));
    } else {
        assert(s.take(j) == s);
    }
}

/// Reads the digits of `s` from `start` on, as a number of at most `limit`.
fn read_digits(s: &[char], start: usize, limit: u64) -> (r: Option<u64>)
    requires
        start <= s@.len(),
        limit >= 9,
    ensures
        ({
            let ds = s@.skip(start as int);
            r == if all_digits(ds) && digits_value(ds) <= limit {
                Some(digits_value(ds) as u64)
            } else {
                None::<u64>
            }
        }),
{
    let ghost ds = s@.skip(start as int);
    let mut acc: u64 = 0;
    let mut i: usize = start;
    assert(ds.take(0) == Seq::<char>::empty());
    while i < s.len()
        invariant
            start <= i <= s@.len(),
            ds == s@.skip(start as int),
            all_digits(ds.take(i - start)),
            acc == digits_value(ds.take(i - start)),
            acc <= limit,
            limit >= 9,
        decreases s@.len() - i,
    {
        let c = s[i];
        assert(ds[i - start] == c);
        if !('0' <= c && c <= '9') {
            assert(!all_digits(ds));
            return None;
        }
        let d = (c as u32 - 48) as u64;
        assert(d <= 9);
        let ghost t = ds.take(i - start + 1);
        assert(t.drop_last() == ds.take(i - start));
        assert(all_digits(t));
        if acc > (limit - d) / 10 {
            assert(acc * 10 + d > limit) by (nonlinear_arith)
                requires
                    acc > (limit - d) / 10,
                    d <= limit,
            ;
            proof {
                if all_digits(ds) {
                    lemma_digits_value_prefix(ds, i - start + 1);
                }
            }
            return None;
        }
        assert(acc * 10 + d <= limit) by (nonlinear_arith)
            requires
                acc <= (limit - d) / 10,
                d <= limit,
        ;
        acc = acc * 10 + d;
        i = i + 1;
    }
    assert(ds.take(i - start) == ds);
    Some(acc)
}

/// Reads an `i64` as `i64::from_str` does.
pub fn read_i64(s: &[char]) -> (r: Option<i64>)
    ensures
        r == parse_i64(s@),
{
    if s.len() == 0 {
        return None;
    }
    let neg = s[0] == '-';
    let start: usize = if s[0] == '+' || neg { 1 } else { 0 };
    assert(start == 1 ==> s@.skip(1) == s@.drop_first());
    assert(start == 0 ==> s@.skip(0) == s@);
    if start == s.len() {
        return None;
    }
    let limit: u64 = if neg { 0x8000_0000_0000_0000u64 } else { 0x7FFF_FFFF_FFFF_FFFFu64 };
    match read_digits(s, start, limit) {
        None => None,
        Some(m) => {
            if neg {
                if m == 0x8000_0000_0000_0000u64 {
                    Some(i64::MIN)
                } else {
                    Some(-(m as i64))
                }
            } else {
                Some(m as i64)
            }
        },
    }
}

/// Reads an unsigned number of at most `max`, as `from_str` does for an
/// unsigned type whose largest value is `max`.
pub fn read_unsigned(s: &[char], max: u64) -> (r: Option<u64>)
    requires
        max >= 9,
    ensures
        r matches Some(v) ==> parse_unsigned(s@, max as nat) == Some(v as nat),
        r is None ==> parse_unsigned(s@, max as nat) is None,
{
    if s.len() == 0 {
        return None;
    }
    let start: usize = if s[0] == '+' { 1 } else { 0 };
    assert(start == 1 ==> s@.skip(1) == s@.drop_first());
    assert(start == 0 ==> s@.skip(0) == s@);
    if start == s.len() {
        return None;
    }
    read_digits(s, start, max)
}

/// Reads a `u8` as `u8::from_str` does.
pub fn read_u8(s: &[char]) -> (r: Option<u8>)
    ensures
        r matches Some(v) ==> parse_unsigned(s@, u8::MAX as nat) == Some(v as nat),
        r is None ==> parse_unsigned(s@, u8::MAX as nat) is None,
{
    match read_unsigned(s, 255) {
        Some(v) => Some(v as u8),
        None => None,
    }
}

/// Reads a `u32` as `u32::from_str` does.
pub fn read_u32(s: &[char]) -> (r: Option<u32>)
    ensures
        r matches Some(v) ==> parse_unsigned(s@, u32::MAX as nat) == Some(v as nat),
        r is None ==> parse_unsigned(s@, u32::MAX as nat) is None,
{
    match read_unsigned(s, 0xFFFF_FFFF) {
        Some(v) => Some(v as u32),
        None => None,
    }
}

/// Finds `index_of(s, c)`.
pub fn find_char(s: &[char], c: char) -> (k: usize)
    ensures
        k == index_of(s@, c),
        k <= s@.len(),
{
    let mut k: usize = 0;
    while k < s.len() && s[k] != c
        invariant
            k <= s@.len(),
            forall|j: int| 0 <= j < k ==> s@[j] != c,
        decreases s@.len() - k,
    {
        k = k + 1;
    }
    proof {
        lemma_index_of(s@, c, k as int);
    }
    k
}

/// Whether two char sequences are equal.
pub fn chars_eq(a: &[char], b: &[char]) -> (r: bool)
    ensures
        r == (a@ == b@),
{
    if a.len() != b.len() {
        return false;
    }
    let mut i: usize = 0;
    while i < a.len()
        invariant
            a@.len() == b@.len(),
            i <= a@.len(),
            forall|j: int| 0 <= j < i ==> a@[j] == b@[j],
        decreases a@.len() - i,
    {
        if a[i] != b[i] {
            return false;
        }
        i = i + 1;
    }
    assert(a@ == b@);
    true
}

/// Whether a char sequence spells a string.
pub fn chars_eq_str(a: &[char], s: &str) -> (r: bool)
    ensures
        r == (a@ == s@),
{
    let b = chars_of(s);
    chars_eq(a, &b)
}

/// Whether every char of `s` is an ASCII char other than a lowercase letter:
/// text that uppercasing leaves as it is.
pub open spec fn upper_ascii(s: Seq<char>) -> bool {
    forall|i: int| 0 <= i < s.len() ==> (#[trigger] s[i] as u32) < 128 && !('a' <= s[i] && s[i] <= 'z')
}

/// Uppercasing leaves text of ASCII chars without lowercase letters as it is.
pub proof fn lemma_upper_id(s: Seq<char>)
    requires
        upper_ascii(s),
    ensures
        upper(s) == s,
    decreases s.len(),
{
    if s.len() > 0 {
        assert(upper_ascii(s.drop_last())) by {
            assert forall|i: int| 0 <= i < s.drop_last().len() implies (#[trigger] s.drop_last()[i] as u32)
                < 128 && !('a' <= s.drop_last()[i] && s.drop_last()[i] <= 'z') by {
                assert(s.drop_last()[i] == s[i]);
            }
        }
        lemma_upper_id(s.drop_last());
        assert(s.drop_last().push(s.last()) == s);
        assert((s.last() as u32) < 128);
    }
}

/// The decimal text of a number: one or more digits, the value of which is
/// the number.
pub proof fn lemma_decimal(n: nat)
    ensures
        decimal(n).len() >= 1,
        all_digits(decimal(n)),
        digits_value(decimal(n)) == n,
    decreases n,
{
    if n >= 10 {
        lemma_decimal(n / 10);
        let d = decimal(n / 10);
        let e = decimal(n);
        assert(e.drop_last() == d);
        assert forall|i: int| 0 <= i < e.len() implies is_digit(#[trigger] e[i]) by {
            if i < d.len() {
                assert(e[i] == d[i]);
            }
        }
        assert(e.last() as int - 48 == n % 10);
        assert(digits_value(e) == digits_value(d) * 10 + (n % 10));
        assert((n / 10) * 10 + n % 10 == n) by (nonlinear_arith);
        assert(digits_value(d) == n / 10);
        assert(digits_value(e) == n);
    } else {
        let e = decimal(n);
        assert(e.drop_last() == Seq::<char>::empty());
        assert(e.last() as int - 48 == n);
        assert(digits_value(e.drop_last()) == 0);
        assert(digits_value(e) == n);
    }
}

/// Reading back the decimal text of a number gives the number.
pub proof fn lemma_parse_decimal(n: nat, signed: bool)
    ensures
        parse_decimal(decimal(n), signed) == Some(n as int),
        signed && n > 0 ==> parse_decimal(seq!['-'] + decimal(n), true) == Some(-(n as int)),
{
    lemma_decimal(n);
    let d = decimal(n);
    assert(is_digit(d[0]));
    let m = seq!['-'] + d;
    assert(m.drop_first() == d);
}

/// Reading back the text of an `i64` gives it.
pub proof fn lemma_parse_i64(n: i64)
    ensures
        parse_i64(signed_decimal(n as int)) == Some(n),
{
    if n < 0 {
        lemma_parse_decimal((-n) as nat, true);
    } else {
        lemma_parse_decimal(n as nat, true);
    }
}


/// The char of a hexadecimal digit, in upper case.
pub open spec fn hex_digit_char(d: int) -> char {
    if d < 10 {
        (d + 48) as char
    } else {
        (d + 55) as char
    }
}

/// The upper-case hexadecimal text of a natural number, without leading zeros.
pub open spec fn hex(n: nat) -> Seq<char>
    decreases n,
{
    if n < 16 {
        seq![hex_digit_char(n as int)]
    } else {
        hex(n / 16).push(hex_digit_char((n % 16) as int))
    }
}

/// `s` with zeros in front, to a length of at least `width`, as the `0`
/// flag and a width do in Rust's format strings.
pub open spec fn zero_padded(s: Seq<char>, width: nat) -> Seq<char> {
    if s.len() >= width {
        s
    } else {
        Seq::new((width - s.len()) as nat, |i: int| '0') + s
    }
}

/// The hexadecimal digits of `n`.
fn hex_digits(n: u64) -> (v: Vec<char>)
    ensures
        v@ == hex(n as nat),
    decreases n,
{
    let mut v = if n >= 16 {
        hex_digits(n / 16)
    } else {
        Vec::new()
    };
    let d = (n % 16) as u8;
    let c = if d < 10 { (d + 48) as char } else { (d + 55) as char };
    v.push(c);
    v
}

/// Appends the upper-case hexadecimal text of `n`, zero-padded to `width`.
pub fn push_padded_hex(s: &mut String, n: u64, width: usize)
    ensures
        final(s)@ == old(s)@ + zero_padded(hex(n as nat), width as nat),
{
    let digits = hex_digits(n);
    let mut k: usize = digits.len();
    while k < width
        invariant
            digits@ == hex(n as nat),
            digits@.len() <= k <= if width > digits@.len() { width as int } else { digits@.len() as int },
            s@ == old(s)@ + Seq::new((k - digits@.len()) as nat, |i: int| '0'),
        decreases width - k,
    {
        push_char(s, '0');
        assert(Seq::new((k + 1 - digits@.len()) as nat, |i: int| '0') == Seq::new(
            (k - digits@.len()) as nat,
            |i: int| '0',
        ).push('0'));
        k = k + 1;
    }
    push_chars(s, &digits);
    if digits.len() >= width {
        assert(Seq::new(0nat, |i: int| '0') + digits@ == digits@);
    }
}
} // verus!
