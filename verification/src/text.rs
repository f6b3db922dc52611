//! Character-level text utilities: whitespace trimming and blank collapsing,
//! substring search, unsigned-integer parsing, and line splitting for the
//! measurement device.

use vstd::prelude::*;

verus! {

/// The blank character whose internal runs are collapsed to one.
pub open spec fn is_blank_char(c: char) -> bool {
    c == ' '
}

/// A whitespace character, as trimmed from the ends of a text run
/// (the Unicode `White_Space` set).
pub open spec fn is_space_char(c: char) -> bool {
    c == '\u{9}' || c == '\u{a}' || c == '\u{b}' || c == '\u{c}' || c == '\u{d}' || c == ' '
        || c == '\u{85}' || c == '\u{a0}' || c == '\u{1680}' || c == '\u{2000}' || c == '\u{2001}'
        || c == '\u{2002}' || c == '\u{2003}' || c == '\u{2004}' || c == '\u{2005}'
        || c == '\u{2006}' || c == '\u{2007}' || c == '\u{2008}' || c == '\u{2009}'
        || c == '\u{200a}' || c == '\u{2028}' || c == '\u{2029}' || c == '\u{202f}'
        || c == '\u{205f}' || c == '\u{3000}'
}

/// Whether `c` is a whitespace character.
pub fn is_space(c: char) -> (r: bool)
    ensures
        r == is_space_char(c),
{
    c == '\u{9}' || c == '\u{a}' || c == '\u{b}' || c == '\u{c}' || c == '\u{d}' || c == ' '
        || c == '\u{85}' || c == '\u{a0}' || c == '\u{1680}' || c == '\u{2000}' || c == '\u{2001}'
        || c == '\u{2002}' || c == '\u{2003}' || c == '\u{2004}' || c == '\u{2005}'
        || c == '\u{2006}' || c == '\u{2007}' || c == '\u{2008}' || c == '\u{2009}'
        || c == '\u{200a}' || c == '\u{2028}' || c == '\u{2029}' || c == '\u{202f}'
        || c == '\u{205f}' || c == '\u{3000}'
}

/// Relies on `String::push`: appends the one character to the end of the string.
#[verifier::external_body]
pub(crate) fn push_char(s: &mut String, c: char)
    ensures
        final(s)@ == old(s)@ + seq![c],
{
    s.push(c);
}

/// The characters of `s`, as a vector.
pub fn str_to_chars(s: &str) -> (v: Vec<char>)
    ensures
        v@ == s@,
{
    let n: usize = s.unicode_len();
    let mut v: Vec<char> = Vec::new();
    let mut i: usize = 0;
    while i < n
        invariant
            i <= n,
            n == s@.len(),
            v@ == s@.take(i as int),
        decreases n - i,
    {
        v.push(s.get_char(i));
        i = i + 1;
        proof {
            assert(s@.take(i as int) =~= s@.take(i - 1).push(s@[i - 1]));
        }
    }
    proof {
        assert(s@.take(n as int) =~= s@);
    }
    v
}

/// The characters `v[from..to]`, as a string.
pub fn string_from_chars(v: &Vec<char>, from: usize, to: usize) -> (r: String)
    requires
        from <= to <= v@.len(),
    ensures
        r@ == v@.subrange(from as int, to as int),
{
    let mut r = String::new();
    let mut i: usize = from;
    while i < to
        invariant
            from <= i <= to <= v@.len(),
            r@ == v@.subrange(from as int, i as int),
        decreases to - i,
    {
        push_char(&mut r, v[i]);
        i = i + 1;
        proof {
            assert(v@.subrange(from as int, i as int) =~= v@.subrange(from as int, i - 1).push(
                v@[i - 1],
            ));
        }
    }
    r
}

/// Whether two string slices hold the same characters.
pub fn str_eq(a: &str, b: &str) -> (r: bool)
    ensures
        r == (a@ == b@),
{
    let n: usize = a.unicode_len();
    let m: usize = b.unicode_len();
    if n != m {
        return false;
    }
    let mut i: usize = 0;
    while i < n
        invariant
            i <= n,
            n == a@.len(),
            n == b@.len(),
            forall|j: int| 0 <= j < i ==> a@[j] == b@[j],
        decreases n - i,
    {
        if a.get_char(i) != b.get_char(i) {
            return false;
        }
        i = i + 1;
    }
    proof {
        assert(a@ =~= b@);
    }
    true
}

/// `s` with every internal run of blanks collapsed to a single blank.
pub open spec fn collapse_blanks(s: Seq<char>) -> Seq<char>
    decreases s.len(),
{
    if s.len() < 2 {
        s
    } else if is_blank_char(s[0]) && is_blank_char(s[1]) {
        collapse_blanks(s.drop_first())
    } else {
        seq![s[0]] + collapse_blanks(s.drop_first())
    }
}

/// `s` without its leading whitespace.
pub open spec fn trim_start(s: Seq<char>) -> Seq<char>
    decreases s.len(),
{
    if s.len() > 0 && is_space_char(s[0]) {
        trim_start(s.drop_first())
    } else {
        s
    }
}

/// `s` without its trailing whitespace.
pub open spec fn trim_end(s: Seq<char>) -> Seq<char>
    decreases s.len(),
{
    if s.len() > 0 && is_space_char(s.last()) {
        trim_end(s.drop_last())
    } else {
        s
    }
}

/// A text run, cleaned: internal blank runs collapsed to one blank, then
/// whitespace trimmed from both ends.
pub open spec fn trimmed_text(s: Seq<char>) -> Seq<char> {
    trim_end(trim_start(collapse_blanks(s)))
}

/// Collapses runs of blanks in `s` and trims whitespace from both ends.
pub fn trim_text(s: &str) -> (r: String)
    ensures
        r@ == trimmed_text(s@),
{
    let chars = str_to_chars(s);
    let n: usize = chars.len();

    // Collapse runs of blanks to a single blank.
    let mut out: Vec<char> = Vec::new();
    let mut i: usize = 0;
    proof {
        assert(s@.skip(0) =~= s@);
    }
    while i < n
        invariant
            i <= n,
            n == chars@.len(),
            chars@ == s@,
            collapse_blanks(s@) == out@ + collapse_blanks(s@.skip(i as int)),
        decreases n - i,
    {
        let ghost pre = s@.skip(i as int);
        let c = chars[i];
        if c == ' ' && i + 1 < n && chars[i + 1] == ' ' {
            // Skip the first blank of a pair; the collapsed text keeps the rest.
        } else {
            out.push(c);
        }
        i = i + 1;
        proof {
            assert(pre.drop_first() =~= s@.skip(i as int));
            if pre.len() == 1 {
                assert(pre =~= seq![s@[i - 1]] + s@.skip(i as int));
            }
        }
    }
    proof {
        assert(s@.skip(n as int) =~= Seq::<char>::empty());
        assert(collapse_blanks(s@) =~= out@);
    }

    // Trim whitespace from the front.
    let len: usize = out.len();
    let mut start: usize = 0;
    proof {
        assert(out@.skip(0) =~= out@);
    }
    while start < len && is_space(out[start])
        invariant
            start <= len,
            len == out@.len(),
            trim_start(out@) == trim_start(out@.skip(start as int)),
        decreases len - start,
    {
        let ghost pre = out@.skip(start as int);
        start = start + 1;
        proof {
            assert(pre.drop_first() =~= out@.skip(start as int));
        }
    }
    proof {
        assert(trim_start(out@) =~= out@.skip(start as int));
    }

    // Trim whitespace from the back.
    let mut end: usize = len;
    while end > start && is_space(out[end - 1])
        invariant
            start <= end <= len,
            len == out@.len(),
            trim_end(out@.skip(start as int)) == trim_end(
                out@.subrange(start as int, end as int),
            ),
        decreases end,
    {
        let ghost pre = out@.subrange(start as int, end as int);
        end = end - 1;
        proof {
            assert(pre.drop_last() =~= out@.subrange(start as int, end as int));
        }
    }
    proof {
        let tail = out@.subrange(start as int, end as int);
        if end > start {
            assert(!is_space_char(tail.last()));
        }
        assert(trim_end(tail) =~= tail);
    }

    string_from_chars(&out, start, end)
}

/// `s` with every newline and tab character removed.
pub open spec fn without_breaks(s: Seq<char>) -> Seq<char>
    decreases s.len(),
{
    if s.len() == 0 {
        Seq::empty()
    } else {
        without_breaks(s.drop_last()) + (if s.last() == '\n' || s.last() == '\t' {
            Seq::empty()
        } else {
            seq![s.last()]
        })
    }
}

/// Removes every newline and tab from `s`, as done to a raw document before
/// parsing.
pub fn strip_breaks(s: &str) -> (r: String)
    ensures
        r@ == without_breaks(s@),
{
    let chars = str_to_chars(s);
    let n: usize = chars.len();
    let mut r = String::new();
    proof {
        assert(without_breaks(s@.take(0)) =~= Seq::<char>::empty());
    }
    let mut i: usize = 0;
    while i < n
        invariant
            i <= n,
            n == chars@.len(),
            chars@ == s@,
            r@ == without_breaks(s@.take(i as int)),
        decreases n - i,
    {
        let c = chars[i];
        if !(c == '\n' || c == '\t') {
            push_char(&mut r, c);
        }
        i = i + 1;
        proof {
            assert(s@.take(i as int).drop_last() =~= s@.take(i - 1));
            assert(s@.take(i as int).last() == s@[i - 1]);
            if c == '\n' || c == '\t' {
                assert(r@ =~= without_breaks(s@.take(i - 1)) + Seq::<char>::empty());
            }
        }
    }
    proof {
        assert(s@.take(n as int) =~= s@);
    }
    r
}

/// Whether `p` occurs in `s` as a contiguous substring.
pub open spec fn contains_seq(s: Seq<char>, p: Seq<char>) -> bool {
    exists|i: int|
        0 <= i && i + p.len() <= s.len() && #[trigger] s.subrange(i, i + p.len()) == p
}

/// Whether `pat` occurs in `s` as a contiguous substring.
pub fn contains_str(s: &str, pat: &str) -> (r: bool)
    ensures
        r == contains_seq(s@, pat@),
{
    let sc = str_to_chars(s);
    let pc = str_to_chars(pat);
    let n: usize = sc.len();
    let m: usize = pc.len();
    if m > n {
        return false;
    }
    if m == 0 {
        proof {
            assert(s@.subrange(0, 0 + pat@.len() as int) =~= pat@);
        }
        return true;
    }
    let mut i: usize = 0;
    while i <= n - m
        invariant
            1 <= m <= n,
            i <= n - m + 1,
            n == s@.len(),
            m == pat@.len(),
            sc@ == s@,
            pc@ == pat@,
            forall|k: int| 0 <= k < i ==> #[trigger] s@.subrange(k, k + m) != pat@,
        decreases n - m + 1 - i,
    {
        let mut j: usize = 0;
        let mut matched = true;
        while j < m
            invariant
                i + m <= n,
                n == s@.len(),
                m == pat@.len(),
                sc@ == s@,
                pc@ == pat@,
                j <= m,
                matched ==> forall|l: int| 0 <= l < j ==> s@[i + l] == pat@[l],
                !matched ==> s@.subrange(i as int, i + m) != pat@,
            decreases m - j,
        {
            if sc[i + j] != pc[j] {
                proof {
                    assert(s@.subrange(i as int, i + m)[j as int] != pat@[j as int]);
                }
                matched = false;
                j = m;
            } else {
                j = j + 1;
            }
        }
        if matched {
            proof {
                assert(s@.subrange(i as int, i + m) =~= pat@);
            }
            return true;
        }
        i = i + 1;
    }
    proof {
        assert forall|k: int| 0 <= k && k + pat@.len() <= s@.len() implies #[trigger] s@.subrange(
            k,
            k + pat@.len(),
        ) != pat@ by {
            assert(k < i);
        }
    }
    false
}

/// Whether `c` is a decimal digit.
pub open spec fn is_digit(c: char) -> bool {
    '0' as u32 <= c as u32 <= '9' as u32
}

/// The value of the decimal digit `c`.
pub open spec fn digit_val(c: char) -> int {
    c as u32 - '0' as u32
}

/// The value of `s` read as a string of decimal digits.
pub open spec fn digits_value(s: Seq<char>) -> int
    decreases s.len(),
{
    if s.len() == 0 {
        0
    } else {
        digits_value(s.drop_last()) * 10 + digit_val(s.last())
    }
}

/// Whether every character of `s` is a decimal digit.
pub open spec fn all_digits(s: Seq<char>) -> bool {
    forall|i: int| 0 <= i < s.len() ==> is_digit(#[trigger] s[i])
}

/// What parsing `s` as an unsigned 32-bit integer yields: the digits after an
/// optional leading plus sign, provided there is at least one, they are all
/// decimal digits, and their value fits.
pub open spec fn parse_u32_spec(s: Seq<char>) -> Option<u32> {
    let digits = if s.len() > 0 && s[0] == '+' {
        s.drop_first()
    } else {
        s
    };
    if digits.len() > 0 && all_digits(digits) && digits_value(digits) <= u32::MAX {
        Some(digits_value(digits) as u32)
    } else {
        None
    }
}

/// The value of a digit string never shrinks as digits are appended.
proof fn lemma_digits_value_monotone(s: Seq<char>, i: int)
    requires
        all_digits(s),
        0 <= i <= s.len(),
    ensures
        0 <= digits_value(s.take(i)) <= digits_value(s),
    decreases s.len() - i,
{
    if i == s.len() {
        assert(s.take(i) =~= s);
        lemma_digits_value_nonneg(s);
    } else {
        lemma_digits_value_monotone(s, i + 1);
        assert(s.take(i + 1).drop_last() =~= s.take(i));
        assert(digits_value(s.take(i + 1)) == digits_value(s.take(i)) * 10 + digit_val(
            s.take(i + 1).last(),
        ));
        lemma_digits_value_nonneg(s.take(i));
    }
}

/// A digit string's value is non-negative.
proof fn lemma_digits_value_nonneg(s: Seq<char>)
    requires
        all_digits(s),
    ensures
        digits_value(s) >= 0,
    decreases s.len(),
{
    if s.len() > 0 {
        assert(all_digits(s.drop_last()));
        lemma_digits_value_nonneg(s.drop_last());
    }
}

/// Parses `s` as an unsigned 32-bit integer.
pub fn parse_u32(s: &str) -> (r: Option<u32>)
    ensures
        r == parse_u32_spec(s@),
{
    let chars = str_to_chars(s);
    let n: usize = chars.len();
    let start: usize = if n > 0 && chars[0] == '+' {
        1
    } else {
        0
    };
    let ghost digits = if s@.len() > 0 && s@[0] == '+' {
        s@.drop_first()
    } else {
        s@
    };
    proof {
        assert(chars@.subrange(start as int, n as int) =~= digits);
    }
    if start == n {
        return None;
    }
    let mut acc: u64 = 0;
    let mut i: usize = start;
    while i < n
        invariant
            start <= i <= n,
            n == chars@.len(),
            digits == (if s@.len() > 0 && s@[0] == '+' {
                s@.drop_first()
            } else {
                s@
            }),
            chars@.subrange(start as int, n as int) =~= digits,
            all_digits(digits.take(i - start)),
            acc == digits_value(digits.take(i - start)),
            acc <= u32::MAX,
        decreases n - i,
    {
        let c = chars[i];
        let cv: u32 = c as u32;
        proof {
            assert(digits[i - start] == chars@.subrange(start as int, n as int)[i - start]);
        }
        if cv < '0' as u32 || cv > '9' as u32 {
            proof {
                assert(digits[i - start] == c);
                assert(!all_digits(digits));
            }
            return None;
        }
        let d: u64 = (cv - '0' as u32) as u64;
        acc = acc * 10 + d;
        i = i + 1;
        proof {
            assert(digits.take(i - start).drop_last() =~= digits.take(i - start - 1));
            assert(digits.take(i - start).last() == c);
        }
        if acc > u32::MAX as u64 {
            proof {
                if all_digits(digits) {
                    lemma_digits_value_monotone(digits, i - start);
                    assert(digits.take(digits.len() as int) =~= digits);
                }
            }
            return None;
        }
    }
    proof {
        assert(digits.take(n - start) =~= digits);
    }
    Some(acc as u32)
}

/// `s` split at newline characters: always at least one line, one more line
/// for every newline.
pub open spec fn split_lines(s: Seq<char>) -> Seq<Seq<char>>
    decreases s.len(),
{
    if s.len() == 0 {
        seq![Seq::empty()]
    } else if s.last() == '\n' {
        split_lines(s.drop_last()).push(Seq::empty())
    } else {
        let r = split_lines(s.drop_last());
        r.update(r.len() - 1, r.last().push(s.last()))
    }
}

/// The length of the longest of the `lines`.
pub open spec fn max_len_of(lines: Seq<Seq<char>>) -> int
    decreases lines.len(),
{
    if lines.len() == 0 {
        0
    } else {
        let m = max_len_of(lines.drop_last());
        if lines.last().len() > m {
            lines.last().len() as int
        } else {
            m
        }
    }
}

/// The length of the longest line of `s`.
pub open spec fn max_line_len(s: Seq<char>) -> int {
    max_len_of(split_lines(s))
}

/// How many lines `s` splits into.
pub open spec fn line_count(s: Seq<char>) -> int {
    split_lines(s).len() as int
}

pub proof fn lemma_split_lines_nonempty(s: Seq<char>)
    ensures
        split_lines(s).len() >= 1,
        max_len_of(split_lines(s)) >= 0,
    decreases s.len(),
{
    if s.len() > 0 {
        lemma_split_lines_nonempty(s.drop_last());
    }
}

/// No line is longer than the text, and there is at most one line per
/// character plus one.
pub proof fn lemma_line_bounds(s: Seq<char>)
    ensures
        0 <= max_line_len(s) <= s.len(),
        split_lines(s).last().len() <= s.len(),
        1 <= line_count(s) <= s.len() + 1,
    decreases s.len(),
{
    lemma_split_lines_nonempty(s);
    if s.len() == 0 {
        assert(split_lines(s) == seq![Seq::<char>::empty()]);
        assert(split_lines(s).drop_last() =~= Seq::<Seq<char>>::empty());
        assert(max_len_of(Seq::<Seq<char>>::empty()) == 0);
    } else {
        lemma_line_bounds(s.drop_last());
        let r = split_lines(s.drop_last());
        if s.last() == '\n' {
            let r2 = r.push(Seq::<char>::empty());
            assert(r2.drop_last() =~= r);
        } else {
            let r2 = r.update(r.len() - 1, r.last().push(s.last()));
            assert(r2.drop_last() =~= r.drop_last());
            assert(r2.last() == r.last().push(s.last()));
            assert(max_len_of(r) == (if r.last().len() > max_len_of(r.drop_last()) {
                r.last().len() as int
            } else {
                max_len_of(r.drop_last())
            }));
            assert(max_len_of(r.drop_last()) <= max_len_of(r));
        }
    }
}

/// Walks `text` once and returns the length of its longest line and its
/// number of lines.
pub fn count_lines(text: &str) -> (r: (usize, usize))
    requires
        text@.len() < usize::MAX,
    ensures
        r.0 == max_line_len(text@),
        r.1 == line_count(text@),
        r.0 <= text@.len(),
        r.1 <= text@.len() + 1,
{
    let chars = str_to_chars(text);
    let n: usize = chars.len();
    let mut max_len: usize = 0;
    let mut cur: usize = 0;
    let mut lines: usize = 1;
    proof {
        assert(text@.take(0) =~= Seq::<char>::empty());
        let l0 = split_lines(Seq::<char>::empty());
        assert(l0 == seq![Seq::<char>::empty()]);
        assert(l0.drop_last() =~= Seq::<Seq<char>>::empty());
        assert(max_len_of(Seq::<Seq<char>>::empty()) == 0);
        assert(max_len_of(l0) == 0);
    }
    let mut i: usize = 0;
    while i < n
        invariant
            i <= n,
            n == chars@.len(),
            n < usize::MAX,
            chars@ == text@,
            lines == split_lines(text@.take(i as int)).len(),
            cur == split_lines(text@.take(i as int)).last().len(),
            max_len == max_len_of(split_lines(text@.take(i as int))),
            cur <= i,
            max_len <= i,
            lines <= i + 1,
        decreases n - i,
    {
        let ghost pre = text@.take(i as int);
        let ghost prelines = split_lines(pre);
        proof {
            lemma_split_lines_nonempty(pre);
        }
        let c = chars[i];
        i = i + 1;
        proof {
            assert(text@.take(i as int).drop_last() =~= pre);
            assert(text@.take(i as int).last() == c);
        }
        if c == '\n' {
            lines = lines + 1;
            cur = 0;
            proof {
                let now = split_lines(text@.take(i as int));
                assert(now == prelines.push(Seq::<char>::empty()));
                assert(now.drop_last() =~= prelines);
            }
        } else {
            cur = cur + 1;
            if cur > max_len {
                max_len = cur;
            }
            proof {
                let now = split_lines(text@.take(i as int));
                assert(now == prelines.update(prelines.len() - 1, prelines.last().push(c)));
                assert(now.drop_last() =~= prelines.drop_last());
                assert(now.last() == prelines.last().push(c));
                assert(max_len_of(now) == (if now.last().len() > max_len_of(now.drop_last()) {
                    now.last().len() as int
                } else {
                    max_len_of(now.drop_last())
                }));
            }
        }
    }
    proof {
        assert(text@.take(n as int) =~= text@);
    }
    (max_len, lines)
}

} // verus!
