use vstd::prelude::*;

verus! {

// ---------------------------------------------------------------------------
// Specifications of the text operations the cgroup files are read with.
// ---------------------------------------------------------------------------

/// The pieces of `s` between the occurrences of `sep`, as `str::split` yields
/// them: one more piece than there are separators, empty pieces included.
pub open spec fn split_on(s: Seq<char>, sep: char) -> Seq<Seq<char>>
    decreases s.len(),
{
    if s.len() == 0 {
        seq![Seq::<char>::empty()]
    } else {
        let init = split_on(s.drop_last(), sep);
        if s.last() == sep {
            init.push(Seq::<char>::empty())
        } else {
            init.update(init.len() - 1, init.last().push(s.last()))
        }
    }
}

/// A line with one trailing carriage return removed.
pub open spec fn strip_cr(line: Seq<char>) -> Seq<char> {
    if line.len() > 0 && line.last() == '\r' {
        line.drop_last()
    } else {
        line
    }
}

/// The lines of `s`, as `str::lines` yields them: split at `\n`, a `\r`
/// before that `\n` removed, and no empty line after a final `\n`.
pub open spec fn lines_of(s: Seq<char>) -> Seq<Seq<char>> {
    let p = split_on(s, '\n');
    let n: int = if p.last().len() == 0 { p.len() - 1 } else { p.len() as int };
    Seq::new(n as nat, |i: int| if i < p.len() - 1 { strip_cr(p[i]) } else { p[i] })
}

/// The character sequences held by a list of character vectors.
pub open spec fn views(v: Seq<Vec<char>>) -> Seq<Seq<char>> {
    Seq::new(v.len(), |i: int| v[i]@)
}

pub proof fn lemma_split_on_nonempty(s: Seq<char>, sep: char)
    ensures
        split_on(s, sep).len() >= 1,
    decreases s.len(),
{
    if s.len() > 0 {
        lemma_split_on_nonempty(s.drop_last(), sep);
    }
}

// ---------------------------------------------------------------------------
// Executable text operations.
// ---------------------------------------------------------------------------

/// Appends one character to a string, by `String::push`. Its contract is
/// taken on trust: the string's characters afterwards are those it had,
/// followed by `c`.
#[verifier::external_body]
fn push_char(s: &mut String, c: char)
    ensures
        final(s)@ == old(s)@.push(c),
{
    s.push(c);
}

/// The characters of `s`, in order.
pub fn chars_of(s: &str) -> (v: Vec<char>)
    ensures
        v@ == s@,
{
    let mut v: Vec<char> = Vec::new();
    for c in it: s.chars()
        invariant
            v@ == it.seq().take(it.index() as int),
            it.seq() == s@,
    {
        v.push(c);
    }
    v
}

/// The string made of the characters of `cs`.
pub fn string_of(cs: &[char]) -> (s: String)
    ensures
        s@ == cs@,
{
    let mut s = String::new();
    let mut i: usize = 0;
    while i < cs.len()
        invariant
            i <= cs.len(),
            s@ == cs@.take(i as int),
        decreases cs.len() - i,
    {
        push_char(&mut s, cs[i]);
        i = i + 1;
    }
    s
}

/// Appends the characters of `cs` to `v`.
pub fn push_all(v: &mut Vec<char>, cs: &[char])
    ensures
        final(v)@ == old(v)@ + cs@,
{
    let mut i: usize = 0;
    while i < cs.len()
        invariant
            i <= cs.len(),
            v@ == old(v)@ + cs@.take(i as int),
        decreases cs.len() - i,
    {
        v.push(cs[i]);
        proof {
            assert(cs@.take(i + 1) =~= cs@.take(i as int).push(cs@[i as int]));
        }
        i = i + 1;
    }
    proof {
        assert(cs@.take(cs@.len() as int) =~= cs@);
    }
}

/// Splits `cs` at every `sep`.
pub fn split_chars(cs: &[char], sep: char) -> (pieces: Vec<Vec<char>>)
    ensures
        views(pieces@) == split_on(cs@, sep),
{
    let mut pieces: Vec<Vec<char>> = Vec::new();
    let mut cur: Vec<char> = Vec::new();
    let mut i: usize = 0;
    while i < cs.len()
        invariant
            i <= cs.len(),
            views(pieces@).push(cur@) == split_on(cs@.take(i as int), sep),
        decreases cs.len() - i,
    {
        let c = cs[i];
        proof {
            assert(cs@.take(i + 1).drop_last() == cs@.take(i as int));
            lemma_split_on_nonempty(cs@.take(i as int), sep);
        }
        if c == sep {
            let ghost before = views(pieces@);
            let ghost done = cur@;
            pieces.push(cur);
            cur = Vec::new();
            proof {
                assert(views(pieces@) =~= before.push(done));
                assert(views(pieces@).push(cur@) =~= split_on(cs@.take(i as int), sep).push(
                    Seq::<char>::empty(),
                ));
            }
        } else {
            let ghost before = views(pieces@);
            cur.push(c);
            proof {
                assert(before.push(cur@) =~= split_on(cs@.take(i as int), sep).update(
                    split_on(cs@.take(i as int), sep).len() - 1,
                    split_on(cs@.take(i as int), sep).last().push(c),
                ));
            }
        }
        i = i + 1;
    }
    proof {
        assert(cs@.take(cs@.len() as int) == cs@);
    }
    let ghost before = views(pieces@);
    let ghost last = cur@;
    pieces.push(cur);
    proof {
        assert(views(pieces@) =~= before.push(last));
    }
    pieces
}

/// The characters of `cs` from position `from` up to, not including, `to`.
pub fn copy_range(cs: &[char], from: usize, to: usize) -> (v: Vec<char>)
    requires
        from <= to <= cs.len(),
    ensures
        v@ == cs@.subrange(from as int, to as int),
{
    let mut v: Vec<char> = Vec::new();
    let mut i: usize = from;
    while i < to
        invariant
            from <= i <= to <= cs.len(),
            v@ == cs@.subrange(from as int, i as int),
        decreases to - i,
    {
        v.push(cs[i]);
        proof {
            assert(v@ =~= cs@.subrange(from as int, i + 1));
        }
        i = i + 1;
    }
    v
}

/// `line` without one trailing carriage return.
fn strip_cr_chars(line: &[char]) -> (v: Vec<char>)
    ensures
        v@ == strip_cr(line@),
{
    let n = line.len();
    if n > 0 && line[n - 1] == '\r' {
        copy_range(line, 0, n - 1)
    } else {
        proof {
            assert(line@.subrange(0, n as int) =~= line@);
        }
        copy_range(line, 0, n)
    }
}

/// The lines of `cs` (see `lines_of`).
pub fn split_lines(cs: &[char]) -> (lines: Vec<Vec<char>>)
    ensures
        views(lines@) == lines_of(cs@),
{
    let pieces = split_chars(cs, '\n');
    proof {
        lemma_split_on_nonempty(cs@, '\n');
    }
    let total = pieces.len();
    let n = if pieces[total - 1].len() == 0 { total - 1 } else { total };
    let ghost p = split_on(cs@, '\n');
    let mut lines: Vec<Vec<char>> = Vec::new();
    let mut i: usize = 0;
    while i < n
        invariant
            views(pieces@) == p,
            p == split_on(cs@, '\n'),
            total == p.len(),
            total >= 1,
            n <= total,
            n == (if p.last().len() == 0 { p.len() - 1 } else { p.len() as int }),
            i <= n,
            views(lines@) == lines_of(cs@).take(i as int),
        decreases n - i,
    {
        let ghost before = views(lines@);
        let line = if i < total - 1 {
            strip_cr_chars(pieces[i].as_slice())
        } else {
            copy_range(pieces[i].as_slice(), 0, pieces[i].len())
        };
        proof {
            assert(pieces@[i as int]@ == p[i as int]);
            assert(pieces[i as int]@.subrange(0, pieces[i as int]@.len() as int) =~= pieces[i as int]@);
        }
        lines.push(line);
        proof {
            assert(views(lines@) =~= before.push(line@));
            assert(views(lines@) =~= lines_of(cs@).take(i + 1));
        }
        i = i + 1;
    }
    proof {
        assert(lines_of(cs@).take(n as int) =~= lines_of(cs@));
    }
    lines
}

// ---------------------------------------------------------------------------
// Whitespace, words and trimming.
// ---------------------------------------------------------------------------

/// `char::is_whitespace`: the characters with the Unicode `White_Space` property.
pub open spec fn is_ws(c: char) -> bool {
    ||| '\u{9}' <= c <= '\u{d}'
    ||| c == ' '
    ||| c == '\u{85}'
    ||| c == '\u{a0}'
    ||| c == '\u{1680}'
    ||| '\u{2000}' <= c <= '\u{200a}'
    ||| c == '\u{2028}'
    ||| c == '\u{2029}'
    ||| c == '\u{202f}'
    ||| c == '\u{205f}'
    ||| c == '\u{3000}'
}

/// The maximal runs of non-whitespace characters of `s`, in order, as
/// `str::split_whitespace` yields them.
pub open spec fn words_of(s: Seq<char>) -> Seq<Seq<char>>
    decreases s.len(),
{
    if s.len() == 0 {
        seq![]
    } else {
        let w = words_of(s.drop_last());
        let c = s.last();
        if is_ws(c) {
            w
        } else if s.len() == 1 || is_ws(s[s.len() - 2]) {
            w.push(seq![c])
        } else {
            w.update(w.len() - 1, w.last().push(c))
        }
    }
}

/// `s` without leading whitespace.
pub open spec fn trim_start(s: Seq<char>) -> Seq<char>
    decreases s.len(),
{
    if s.len() > 0 && is_ws(s[0]) {
        trim_start(s.drop_first())
    } else {
        s
    }
}

/// `s` without trailing whitespace.
pub open spec fn trim_end(s: Seq<char>) -> Seq<char>
    decreases s.len(),
{
    if s.len() > 0 && is_ws(s.last()) {
        trim_end(s.drop_last())
    } else {
        s
    }
}

/// `str::trim`: `s` without leading and trailing whitespace.
pub open spec fn trim(s: Seq<char>) -> Seq<char> {
    trim_end(trim_start(s))
}

/// Whether `c` is whitespace (see `is_ws`).
pub fn is_whitespace(c: char) -> (b: bool)
    ensures
        b == is_ws(c),
{
    ('\u{9}' <= c && c <= '\u{d}') || c == ' ' || c == '\u{85}' || c == '\u{a0}' || c
        == '\u{1680}' || ('\u{2000}' <= c && c <= '\u{200a}') || c == '\u{2028}' || c
        == '\u{2029}' || c == '\u{202f}' || c == '\u{205f}' || c == '\u{3000}'
}

/// The whitespace-separated words of `cs`.
pub fn split_words(cs: &[char]) -> (words: Vec<Vec<char>>)
    ensures
        views(words@) == words_of(cs@),
{
    let mut words: Vec<Vec<char>> = Vec::new();
    let mut cur: Vec<char> = Vec::new();
    let mut in_word = false;
    let mut i: usize = 0;
    while i < cs.len()
        invariant
            i <= cs.len(),
            in_word <==> (i > 0 && !is_ws(cs@[i - 1])),
            !in_word ==> cur@.len() == 0,
            (if in_word { views(words@).push(cur@) } else { views(words@) }) == words_of(
                cs@.take(i as int),
            ),
        decreases cs.len() - i,
    {
        let c = cs[i];
        let ghost before = views(words@);
        let ghost prev = words_of(cs@.take(i as int));
        proof {
            assert(cs@.take(i + 1).drop_last() =~= cs@.take(i as int));
            if i > 0 {
                assert(cs@.take(i + 1)[i - 1] == cs@[i - 1]);
            }
        }
        if is_whitespace(c) {
            if in_word {
                let ghost done = cur@;
                words.push(cur);
                cur = Vec::new();
                proof {
                    assert(views(words@) =~= before.push(done));
                }
            }
            in_word = false;
        } else {
            cur.push(c);
            proof {
                if in_word {
                    assert(before.push(cur@) =~= prev.update(prev.len() - 1, prev.last().push(c)));
                } else {
                    assert(cur@ =~= seq![c]);
                }
            }
            in_word = true;
        }
        i = i + 1;
    }
    proof {
        assert(cs@.take(cs@.len() as int) =~= cs@);
    }
    if in_word {
        let ghost before = views(words@);
        let ghost last = cur@;
        words.push(cur);
        proof {
            assert(views(words@) =~= before.push(last));
        }
    }
    words
}

/// `cs` without leading and trailing whitespace.
pub fn trim_chars(cs: &[char]) -> (v: Vec<char>)
    ensures
        v@ == trim(cs@),
{
    let n = cs.len();
    let mut a: usize = 0;
    proof {
        assert(cs@.skip(0) =~= cs@);
    }
    while a < n && is_whitespace(cs[a])
        invariant
            a <= n == cs.len(),
            trim_start(cs@) == trim_start(cs@.skip(a as int)),
        decreases n - a,
    {
        proof {
            assert(cs@.skip(a as int).drop_first() =~= cs@.skip(a + 1));
        }
        a = a + 1;
    }
    let mut b: usize = n;
    let ghost t = cs@.skip(a as int);
    proof {
        assert(trim_start(cs@) == t);
        assert(t.take(t.len() as int) =~= t);
    }
    while b > a && is_whitespace(cs[b - 1])
        invariant
            a <= b <= n == cs.len(),
            t == cs@.skip(a as int),
            trim_end(t) == trim_end(t.take(b - a)),
        decreases b,
    {
        proof {
            assert(t.take(b - a).drop_last() =~= t.take(b - 1 - a));
        }
        b = b - 1;
    }
    proof {
        assert(t.take(b - a) =~= cs@.subrange(a as int, b as int));
    }
    copy_range(cs, a, b)
}

// ---------------------------------------------------------------------------
// Decimal numbers.
// ---------------------------------------------------------------------------

/// An ASCII decimal digit.
pub open spec fn is_digit(c: char) -> bool {
    '0' <= c <= '9'
}

/// Every character of `d` is a decimal digit.
pub open spec fn all_digits(d: Seq<char>) -> bool {
    forall|i: int| 0 <= i < d.len() ==> is_digit(#[trigger] d[i])
}

/// What is left of a number's text once an optional leading `+` is taken off.
pub open spec fn unsigned_digits(s: Seq<char>) -> Seq<char> {
    if s.len() > 0 && s[0] == '+' {
        s.drop_first()
    } else {
        s
    }
}

/// The number that the decimal digits `s` write.
pub open spec fn digits_value(s: Seq<char>) -> nat
    decreases s.len(),
{
    if s.len() == 0 {
        0
    } else {
        digits_value(s.drop_last()) * 10 + ((s.last() as int - '0' as int) as nat)
    }
}

/// What `str::parse::<u64>` gives: an optional `+`, then one or more ASCII
/// digits whose value fits in a `u64`; anything else is refused.
pub open spec fn parse_u64_spec(s: Seq<char>) -> Option<u64> {
    let d = unsigned_digits(s);
    if d.len() > 0 && all_digits(d) && digits_value(d) <= u64::MAX {
        Some(digits_value(d) as u64)
    } else {
        None
    }
}

/// What `str::parse::<u32>` gives (see `parse_u64_spec`).
pub open spec fn parse_u32_spec(s: Seq<char>) -> Option<u32> {
    match parse_u64_spec(s) {
        Some(v) => if v <= u32::MAX { Some(v as u32) } else { None },
        None => None,
    }
}

/// The digit character for `d < 10`.
pub open spec fn digit_char(d: nat) -> char {
    (d + '0' as nat) as char
}

/// The decimal representation of `n`, as `u64::to_string` writes it.
pub open spec fn decimal(n: nat) -> Seq<char>
    decreases n,
{
    if n < 10 {
        seq![digit_char(n)]
    } else {
        decimal(n / 10).push(digit_char(n % 10))
    }
}

/// The decimal text of `n`, as `u64::to_string` gives it.
pub fn decimal_string(n: u64) -> (s: String)
    ensures
        s@ == decimal(n as nat),
{
    let v = decimal_chars(n);
    string_of(v.as_slice())
}

pub proof fn lemma_digits_value_prefix_monotone(s: Seq<char>, k: int)
    requires
        0 <= k <= s.len(),
    ensures
        digits_value(s.take(k)) <= digits_value(s),
    decreases s.len(),
{
    if k < s.len() {
        assert(s.drop_last().take(k) =~= s.take(k));
        lemma_digits_value_prefix_monotone(s.drop_last(), k);
    } else {
        assert(s.take(k) =~= s);
    }
}

/// Parses `cs` as `str::parse::<u64>` does.
pub fn parse_u64(cs: &[char]) -> (r: Option<u64>)
    ensures
        r == parse_u64_spec(cs@),
{
    let n = cs.len();
    let start: usize = if n > 0 && cs[0] == '+' { 1 } else { 0 };
    let ghost d = unsigned_digits(cs@);
    proof {
        assert(d =~= cs@.skip(start as int));
    }
    if start >= n {
        return None;
    }
    let mut acc: u64 = 0;
    let mut i: usize = start;
    while i < n
        invariant
            start <= i <= n == cs.len(),
            d == cs@.skip(start as int),
            d == unsigned_digits(cs@),
            forall|j: int| 0 <= j < i - start ==> is_digit(#[trigger] d[j]),
            acc as nat == digits_value(d.take(i - start)),
        decreases n - i,
    {
        let c = cs[i];
        proof {
            assert(d.take(i + 1 - start).drop_last() =~= d.take(i - start));
            assert(d[i - start] == c);
        }
        if !('0' <= c && c <= '9') {
            proof {
                assert(!is_digit(d[i - start]));
            }
            return None;
        }
        let digit: u64 = (c as u32 - '0' as u32) as u64;
        proof {
            assert(d.take(i + 1 - start).last() == c);
            assert(digits_value(d.take(i + 1 - start)) == acc * 10 + digit);
        }
        match acc.checked_mul(10) {
            None => {
                proof {
                    lemma_digits_value_prefix_monotone(d, i + 1 - start);
                }
                return None;
            },
            Some(m) => match m.checked_add(digit) {
                None => {
                    proof {
                        lemma_digits_value_prefix_monotone(d, i + 1 - start);
                    }
                    return None;
                },
                Some(v) => {
                    acc = v;
                },
            },
        }
        i = i + 1;
    }
    proof {
        assert(d.take(n - start) =~= d);
    }
    Some(acc)
}

/// Parses `cs` as `str::parse::<u32>` does.
pub fn parse_u32(cs: &[char]) -> (r: Option<u32>)
    ensures
        r == parse_u32_spec(cs@),
{
    match parse_u64(cs) {
        Some(v) => if v <= 0xffff_ffffu64 { Some(v as u32) } else { None },
        None => None,
    }
}

/// The decimal digits of `n`.
pub fn decimal_chars(n: u64) -> (v: Vec<char>)
    ensures
        v@ == decimal(n as nat),
    decreases n,
{
    let d = (n % 10) as u8;
    let c = (d + 48u8) as char;
    proof {
        assert(c == digit_char((n % 10) as nat));
    }
    if n < 10 {
        let mut v: Vec<char> = Vec::new();
        v.push(c);
        proof {
            assert(v@ =~= seq![c]);
        }
        v
    } else {
        let mut v = decimal_chars(n / 10);
        v.push(c);
        v
    }
}

pub proof fn lemma_decimal_digits(n: nat)
    ensures
        decimal(n).len() > 0,
        all_digits(decimal(n)),
        digits_value(decimal(n)) == n,
        decimal(n)[0] != '+',
    decreases n,
{
    assert(digit_char(n % 10) as int == n % 10 + 48);
    if n < 10 {
        assert(decimal(n) =~= seq![digit_char(n)]);
        assert(decimal(n).drop_last() =~= Seq::<char>::empty());
        assert(decimal(n).last() == digit_char(n));
        assert(digit_char(n) as int == n + 48);
        assert(digits_value(Seq::<char>::empty()) == 0);
    } else {
        lemma_decimal_digits(n / 10);
        let d = decimal(n);
        assert(d.drop_last() =~= decimal(n / 10));
        assert(d.last() == digit_char(n % 10));
        assert(digits_value(d) == digits_value(decimal(n / 10)) * 10 + n % 10);
        assert((n / 10) * 10 + n % 10 == n);
        assert forall|i: int| 0 <= i < d.len() implies is_digit(#[trigger] d[i]) by {
            if i < d.len() - 1 {
                assert(d[i] == decimal(n / 10)[i]);
            }
        }
    }
}

/// The text written by a decimal number is parsed back to that number.
pub proof fn lemma_parse_decimal(n: u64)
    ensures
        parse_u64_spec(decimal(n as nat)) == Some(n),
{
    lemma_decimal_digits(n as nat);
}

// ---------------------------------------------------------------------------
// Comparing and searching character sequences.
// ---------------------------------------------------------------------------

/// Whether `a` and `b` hold the same characters.
pub fn chars_eq(a: &[char], b: &[char]) -> (r: bool)
    ensures
        r == (a@ == b@),
{
    if a.len() != b.len() {
        return false;
    }
    let mut i: usize = 0;
    while i < a.len()
        invariant
            a.len() == b.len(),
            i <= a.len(),
            forall|j: int| 0 <= j < i ==> a@[j] == b@[j],
        decreases a.len() - i,
    {
        if a[i] != b[i] {
            return false;
        }
        i = i + 1;
    }
    proof {
        assert(a@ =~= b@);
    }
    true
}

/// Whether the strings `a` and `b` are equal.
pub fn str_eq(a: &str, b: &str) -> (r: bool)
    ensures
        r == (a@ == b@),
{
    let x = chars_of(a);
    let y = chars_of(b);
    chars_eq(x.as_slice(), y.as_slice())
}

/// `pat` stands in `s` at position `i`.
pub open spec fn occurs_at(s: Seq<char>, pat: Seq<char>, i: int) -> bool {
    0 <= i && i + pat.len() <= s.len() && s.subrange(i, i + pat.len()) == pat
}

/// Whether `pat` stands in `cs` at position `at`.
pub fn occurs_at_exec(cs: &[char], pat: &[char], at: usize) -> (r: bool)
    ensures
        r == occurs_at(cs@, pat@, at as int),
{
    if at > cs.len() || pat.len() > cs.len() - at {
        return false;
    }
    let mut j: usize = 0;
    while j < pat.len()
        invariant
            at + pat.len() <= cs.len(),
            j <= pat.len(),
            forall|k: int| 0 <= k < j ==> cs@[at + k] == pat@[k],
        decreases pat.len() - j,
    {
        if cs[at + j] != pat[j] {
            proof {
                assert(cs@.subrange(at as int, at + pat.len())[j as int] != pat@[j as int]);
            }
            return false;
        }
        j = j + 1;
    }
    proof {
        assert(cs@.subrange(at as int, at + pat.len()) =~= pat@);
    }
    true
}

/// `s` starts with `p`.
pub open spec fn has_prefix(s: Seq<char>, p: Seq<char>) -> bool {
    p.len() <= s.len() && s.take(p.len() as int) == p
}

/// `s` ends with `p`.
pub open spec fn has_suffix(s: Seq<char>, p: Seq<char>) -> bool {
    p.len() <= s.len() && s.skip(s.len() - p.len()) == p
}

/// Whether `cs` starts with `p`.
pub fn starts_with(cs: &[char], p: &[char]) -> (r: bool)
    ensures
        r == has_prefix(cs@, p@),
{
    let r = occurs_at_exec(cs, p, 0);
    proof {
        assert(cs@.subrange(0, p@.len() as int) =~= cs@.take(p@.len() as int));
    }
    r
}

/// Whether `cs` ends with `p`.
pub fn ends_with(cs: &[char], p: &[char]) -> (r: bool)
    ensures
        r == has_suffix(cs@, p@),
{
    if p.len() > cs.len() {
        return false;
    }
    let r = occurs_at_exec(cs, p, cs.len() - p.len());
    proof {
        assert(cs@.subrange(cs@.len() - p@.len(), cs@.len() as int) =~= cs@.skip(
            cs@.len() - p@.len(),
        ));
    }
    r
}

/// The first position at which `pat` stands in `s`, if any (as `str::find`).
#[verifier::opaque]
pub open spec fn first_occurrence(s: Seq<char>, pat: Seq<char>) -> Option<int> {
    if exists|i: int| occurs_at(s, pat, i) {
        Some(
            choose|i: int|
                occurs_at(s, pat, i) && forall|j: int| 0 <= j < i ==> !occurs_at(s, pat, j),
        )
    } else {
        None
    }
}

/// Finds the first position at which `pat` stands in `cs`.
pub fn find_first(cs: &[char], pat: &[char]) -> (r: Option<usize>)
    ensures
        r matches Some(i) ==> first_occurrence(cs@, pat@) == Some(i as int) && occurs_at(
            cs@,
            pat@,
            i as int,
        ),
        r is None ==> first_occurrence(cs@, pat@) is None,
{
    reveal(first_occurrence);
    let mut i: usize = 0;
    loop
        invariant
            i <= cs.len(),
            forall|j: int| 0 <= j < i ==> !occurs_at(cs@, pat@, j),
        decreases cs.len() - i,
    {
        if occurs_at_exec(cs, pat, i) {
            proof {
                reveal(first_occurrence);
                let c = choose|k: int|
                    occurs_at(cs@, pat@, k) && forall|j: int|
                        0 <= j < k ==> !occurs_at(cs@, pat@, j);
                assert(occurs_at(cs@, pat@, c));
                if c < i {
                    assert(!occurs_at(cs@, pat@, c));
                } else if c > i {
                    assert(!occurs_at(cs@, pat@, i as int));
                }
            }
            return Some(i);
        }
        if i == cs.len() {
            proof {
                reveal(first_occurrence);
                assert forall|j: int| !occurs_at(cs@, pat@, j) by {
                    if 0 <= j && j < i {
                    }
                }
            }
            return None;
        }
        i = i + 1;
    }
}

// ---------------------------------------------------------------------------
// How lines and words of text built by the library are read back.
// ---------------------------------------------------------------------------

/// `s` is one word: not empty, and without whitespace.
pub open spec fn is_word(s: Seq<char>) -> bool {
    s.len() > 0 && forall|i: int| 0 <= i < s.len() ==> !is_ws(#[trigger] s[i])
}

pub proof fn lemma_split_without_sep(s: Seq<char>, sep: char)
    requires
        forall|i: int| 0 <= i < s.len() ==> s[i] != sep,
    ensures
        split_on(s, sep) == seq![s],
    decreases s.len(),
{
    if s.len() > 0 {
        let s1 = s.drop_last();
        assert forall|i: int| 0 <= i < s1.len() implies s1[i] != sep by {
            assert(s1[i] == s[i]);
        }
        lemma_split_without_sep(s1, sep);
        assert(s[s.len() - 1] != sep);
        assert(s1.push(s.last()) =~= s);
        assert(split_on(s, sep) =~= seq![s]);
    } else {
        assert(s =~= Seq::<char>::empty());
        assert(split_on(s, sep) =~= seq![s]);
    }
}

/// A text without newlines, ended by one newline and not by `\r\n`, is one line.
pub proof fn lemma_single_line(x: Seq<char>)
    requires
        forall|i: int| 0 <= i < x.len() ==> x[i] != '\n',
        x.len() > 0,
        x.last() != '\r',
    ensures
        lines_of(x.push('\n')) == seq![x],
{
    lemma_split_without_sep(x, '\n');
    assert(x.push('\n').drop_last() =~= x);
    assert(split_on(x.push('\n'), '\n') =~= seq![x, Seq::<char>::empty()]);
    assert(lines_of(x.push('\n')) =~= seq![x]);
}

pub proof fn lemma_words_of_word(s: Seq<char>)
    requires
        is_word(s),
    ensures
        words_of(s) == seq![s],
    decreases s.len(),
{
    assert(!is_ws(s[s.len() - 1]));
    if s.len() == 1 {
        assert(s.drop_last() =~= Seq::<char>::empty());
        assert(words_of(s.drop_last()) =~= Seq::<Seq<char>>::empty());
        assert(seq![s.last()] =~= s);
        assert(words_of(s) =~= seq![s]);
    } else {
        let s1 = s.drop_last();
        assert(is_word(s1)) by {
            assert forall|i: int| 0 <= i < s1.len() implies !is_ws(#[trigger] s1[i]) by {
                assert(s1[i] == s[i]);
            }
        }
        lemma_words_of_word(s1);
        assert(!is_ws(s[s.len() - 2]));
        assert(s1.push(s.last()) =~= s);
        assert(words_of(s) =~= seq![s]);
    }
}

pub proof fn lemma_words_append_word(x: Seq<char>, b: Seq<char>)
    requires
        x.len() > 0,
        is_ws(x.last()),
        is_word(b),
    ensures
        words_of(x + b) == words_of(x).push(b),
    decreases b.len(),
{
    let s = x + b;
    assert(!is_ws(b[b.len() - 1]));
    assert(s.last() == b.last());
    if b.len() == 1 {
        assert(s.drop_last() =~= x);
        assert(s[s.len() - 2] == x.last());
        assert(seq![s.last()] =~= b);
        assert(words_of(s) =~= words_of(x).push(b));
    } else {
        let b1 = b.drop_last();
        assert(is_word(b1)) by {
            assert forall|i: int| 0 <= i < b1.len() implies !is_ws(#[trigger] b1[i]) by {
                assert(b1[i] == b[i]);
            }
        }
        lemma_words_append_word(x, b1);
        assert(s.drop_last() =~= x + b1);
        assert(s[s.len() - 2] == b[b.len() - 2]);
        assert(!is_ws(b[b.len() - 2]));
        assert(b1.push(s.last()) =~= b);
        assert(words_of(s) =~= words_of(x).push(b));
    }
}

/// Two words joined by one space are read back as those two words.
pub proof fn lemma_two_words(a: Seq<char>, b: Seq<char>)
    requires
        is_word(a),
        is_word(b),
    ensures
        words_of(a + seq![' '] + b) == seq![a, b],
{
    lemma_words_of_word(a);
    let x = a + seq![' '];
    assert(x.drop_last() =~= a);
    assert(words_of(x) == words_of(a));
    lemma_words_append_word(x, b);
    assert(words_of(a + seq![' '] + b) =~= seq![a, b]);
}

/// The decimal text of a number is one word.
pub proof fn lemma_decimal_is_word(n: nat)
    ensures
        is_word(decimal(n)),
{
    lemma_decimal_digits(n);
    let d = decimal(n);
    assert forall|i: int| 0 <= i < d.len() implies !is_ws(#[trigger] d[i]) by {
        assert(is_digit(d[i]));
    }
}

// ---------------------------------------------------------------------------
// Splitting and lines of joined texts.
// ---------------------------------------------------------------------------

/// Splitting two texts joined by a separator gives the pieces of the first
/// followed by the pieces of the second.
pub proof fn lemma_split_concat(x: Seq<char>, y: Seq<char>, sep: char)
    ensures
        split_on(x + seq![sep] + y, sep) == split_on(x, sep) + split_on(y, sep),
    decreases y.len(),
{
    let s = x + seq![sep] + y;
    lemma_split_on_nonempty(x, sep);
    if y.len() == 0 {
        assert(s.drop_last() =~= x);
        assert(split_on(y, sep) =~= seq![Seq::<char>::empty()]);
        assert(split_on(s, sep) =~= split_on(x, sep) + split_on(y, sep));
    } else {
        let y1 = y.drop_last();
        lemma_split_concat(x, y1, sep);
        lemma_split_on_nonempty(y1, sep);
        assert(s.drop_last() =~= x + seq![sep] + y1);
        assert(s.last() == y.last());
        let a = split_on(x, sep);
        let b1 = split_on(y1, sep);
        if y.last() == sep {
            assert(split_on(s, sep) =~= (a + b1).push(Seq::<char>::empty()));
            assert((a + b1).push(Seq::<char>::empty()) =~= a + b1.push(Seq::<char>::empty()));
        } else {
            let ab = a + b1;
            assert(ab.last() == b1.last());
            assert(ab.update(ab.len() - 1, ab.last().push(y.last())) =~= a + b1.update(
                b1.len() - 1,
                b1.last().push(y.last()),
            ));
        }
    }
}

/// The lines of a text that ends with a newline (or is empty), followed by
/// another text, are its lines followed by the other text's lines.
pub proof fn lemma_lines_concat(c: Seq<char>, t: Seq<char>)
    requires
        c.len() == 0 || c.last() == '\n',
    ensures
        lines_of(c + t) == lines_of(c) + lines_of(t),
{
    if c.len() == 0 {
        assert(c + t =~= t);
        assert(split_on(c, '\n') =~= seq![Seq::<char>::empty()]);
        assert(lines_of(c) =~= Seq::<Seq<char>>::empty());
        assert(lines_of(c) + lines_of(t) =~= lines_of(t));
    } else {
        let c1 = c.drop_last();
        assert(c =~= c1 + seq!['\n'] + Seq::<char>::empty());
        assert(c + t =~= c1 + seq!['\n'] + t);
        lemma_split_concat(c1, t, '\n');
        lemma_split_concat(c1, Seq::<char>::empty(), '\n');
        lemma_split_on_nonempty(t, '\n');
        let a = split_on(c1, '\n');
        let b = split_on(t, '\n');
        assert(split_on(Seq::<char>::empty(), '\n') =~= seq![Seq::<char>::empty()]);
        let pc = split_on(c, '\n');
        assert(pc =~= a + seq![Seq::<char>::empty()]);
        let p = split_on(c + t, '\n');
        assert(p == a + b);
        let lc = lines_of(c);
        let lt = lines_of(t);
        assert(lc.len() == a.len());
        assert forall|i: int| 0 <= i < a.len() implies #[trigger] lc[i] == strip_cr(a[i]) by {
            assert(pc[i] == a[i]);
        }
        let l = lines_of(c + t);
        assert(p.last() == b.last());
        assert(l.len() == lc.len() + lt.len());
        assert forall|i: int| 0 <= i < l.len() implies #[trigger] l[i] == (lc + lt)[i] by {
            if i < a.len() {
                assert(p[i] == a[i]);
            } else {
                assert(p[i] == b[i - a.len()]);
            }
        }
        assert(l =~= lc + lt);
    }
}


}
