//! Small texts: numbers and lines.

use vstd::prelude::*;

verus! {

/// `String::push` (std): the character is appended.
pub assume_specification[ String::push ](s: &mut String, c: char)
    ensures
        final(s)@ == old(s)@.push(c),
;

/// The views of strings.
pub open spec fn texts(v: Seq<String>) -> Seq<Seq<char>> {
    Seq::new(v.len(), |i: int| v[i]@)
}

/// The characters of `text`.
pub fn chars_of(text: &str) -> (v: Vec<char>)
    ensures
        v@ == text@,
{
    let mut v: Vec<char> = Vec::new();
    for c in it: text.chars()
        invariant
            it.seq() == text@,
            v@ =~= text@.take(it.index() as int),
    {
        v.push(c);
    }
    assert(v@ =~= text@);
    v
}

/// The text of the characters `from` up to `to`.
pub fn text_of(v: &Vec<char>, from: usize, to: usize) -> (s: String)
    requires
        from <= to <= v@.len(),
    ensures
        s@ == v@.subrange(from as int, to as int),
{
    let mut s: String = String::new();
    let mut i: usize = from;
    while i < to
        invariant
            from <= i <= to <= v@.len(),
            s@ =~= v@.subrange(from as int, i as int),
        decreases to - i,
    {
        s.push(v[i]);
        i = i + 1;
    }
    s
}

/// Whether two texts are the same.
pub fn same_text(a: &str, b: &str) -> (r: bool)
    ensures
        r == (a@ == b@),
{
    let x: Vec<char> = chars_of(a);
    let y: Vec<char> = chars_of(b);
    if x.len() != y.len() {
        return false;
    }
    let mut i: usize = 0;
    while i < x.len()
        invariant
            x@ == a@,
            y@ == b@,
            x@.len() == y@.len(),
            i <= x@.len(),
            forall|j: int| 0 <= j < i ==> x@[j] == y@[j],
        decreases x@.len() - i,
    {
        if x[i] != y[i] {
            return false;
        }
        i = i + 1;
    }
    assert(x@ =~= y@);
    true
}

// ---------------------------------------------------------------------------
// Numbers
// ---------------------------------------------------------------------------

/// The lower-case hexadecimal digit of `d`.
pub open spec fn hex_digit(d: int) -> char {
    if d < 10 {
        ('0' as int + d) as char
    } else {
        ('a' as int + d - 10) as char
    }
}

/// `x` in `width` hexadecimal digits.
pub open spec fn hex_text(x: int, width: nat) -> Seq<char>
    decreases width,
{
    if width == 0 {
        Seq::empty()
    } else {
        hex_text(x / 16, (width - 1) as nat).push(hex_digit(x % 16))
    }
}

/// The value of a hexadecimal digit in either case.
pub open spec fn hex_value(c: char) -> Option<int> {
    if '0' <= c <= '9' {
        Some(c as int - '0' as int)
    } else if 'a' <= c <= 'f' {
        Some(c as int - 'a' as int + 10)
    } else if 'A' <= c <= 'F' {
        Some(c as int - 'A' as int + 10)
    } else {
        None
    }
}

/// The number that hexadecimal digits stand for; `None` where something else is
/// among them.
pub open spec fn hex_number(s: Seq<char>) -> Option<int>
    decreases s.len(),
{
    if s.len() == 0 {
        Some(0)
    } else {
        match (hex_number(s.drop_last()), hex_value(s.last())) {
            (Some(x), Some(d)) => Some(16 * x + d),
            _ => None,
        }
    }
}

/// White space in the sense of Unicode.
pub open spec fn is_space(c: char) -> bool {
    ||| '\u{9}' <= c <= '\u{d}'
    ||| c == ' '
    ||| c == '\u{85}'
    ||| c == '\u{a0}'
    ||| c == '\u{1680}'
    ||| '\u{2000}' <= c <= '\u{200a}'
    ||| c == '\u{2028}'
    ||| c == '\u{2029}'
    ||| c == '\u{202f}'
    ||| c == '\u{205f}'
    ||| c == '\u{3000}'
}

/// `s` without the white space in front.
pub open spec fn trimmed_front(s: Seq<char>) -> Seq<char>
    decreases s.len(),
{
    if s.len() > 0 && is_space(s[0]) {
        trimmed_front(s.drop_first())
    } else {
        s
    }
}

/// `s` without the white space at its end.
pub open spec fn trimmed_back(s: Seq<char>) -> Seq<char>
    decreases s.len(),
{
    if s.len() > 0 && is_space(s.last()) {
        trimmed_back(s.drop_last())
    } else {
        s
    }
}

/// The number written in `s`: hexadecimal digits, at least one, with a plus sign
/// in front or without, and white space around; `None` for anything else, and
/// for a number of more than 64 bits.
pub open spec fn parsed_hex(s: Seq<char>) -> Option<u64> {
    let t = trimmed_back(trimmed_front(s));
    if t.len() > 0 && t[0] == '+' {
        hex_fits(t.drop_first())
    } else {
        hex_fits(t)
    }
}

/// The number that one or more hexadecimal digits stand for, if it has no more
/// than 64 bits.
pub open spec fn hex_fits(digits: Seq<char>) -> Option<u64> {
    match hex_number(digits) {
        Some(x) if digits.len() > 0 && x <= u64::MAX => Some(x as u64),
        _ => None,
    }
}

/// Whether `c` is white space.
fn space(c: char) -> (r: bool)
    ensures
        r == is_space(c),
{
    ('\u{9}' <= c && c <= '\u{d}') || c == ' ' || c == '\u{85}' || c == '\u{a0}' || c == '\u{1680}'
        || ('\u{2000}' <= c && c <= '\u{200a}') || c == '\u{2028}' || c == '\u{2029}' || c
        == '\u{202f}' || c == '\u{205f}' || c == '\u{3000}'
}

/// The value of a hexadecimal digit.
fn digit_value(c: char) -> (r: Option<u64>)
    ensures
        r is Some <==> hex_value(c) is Some,
        r matches Some(d) ==> hex_value(c) == Some(d as int) && d < 16,
{
    if '0' <= c && c <= '9' {
        Some((c as u32 - '0' as u32) as u64)
    } else if 'a' <= c && c <= 'f' {
        Some((c as u32 - 'a' as u32 + 10) as u64)
    } else if 'A' <= c && c <= 'F' {
        Some((c as u32 - 'A' as u32 + 10) as u64)
    } else {
        None
    }
}

/// The lower-case hexadecimal digit of `d`.
fn digit_char(d: u64) -> (c: char)
    requires
        d < 16,
    ensures
        c == hex_digit(d as int),
{
    if d < 10 {
        (0x30 + d as u8) as char
    } else {
        (0x61 + (d as u8 - 10)) as char
    }
}

/// Sixteen to the power of `k`.
pub open spec fn pow16(k: nat) -> nat
    decreases k,
{
    if k == 0 {
        1
    } else {
        16 * pow16((k - 1) as nat)
    }
}

/// `fp` in sixteen hexadecimal digits.
pub fn format_fp(fp: u64) -> (s: String)
    ensures
        s@ == hex_text(fp as int, 16),
{
    let mut digits: Vec<char> = Vec::new();
    let mut rest: u64 = fp;
    let mut i: usize = 0;
    while i < 16
        invariant
            i <= 16,
            digits@.len() == i,
            hex_text(fp as int, 16) =~= hex_text(rest as int, (16 - i) as nat)
                + digits@.reverse(),
        decreases 16 - i,
    {
        let ghost before = digits@;
        let d: u64 = rest % 16;
        let c: char = digit_char(d);
        digits.push(c);
        proof {
            assert(digits@.reverse() =~= seq![c] + before.reverse());
            let w = (16 - i) as nat;
            assert(hex_text(rest as int, w) =~= hex_text(rest as int / 16, (w - 1) as nat).push(c));
            assert(hex_text(rest as int, w) + before.reverse() =~= hex_text(
                rest as int / 16,
                (w - 1) as nat,
            ) + digits@.reverse());
        }
        rest = rest / 16;
        i = i + 1;
    }
    let mut s: String = String::new();
    let mut k: usize = 16;
    while k > 0
        invariant
            k <= 16,
            digits@.len() == 16,
            s@ =~= digits@.reverse().take(16 - k),
        decreases k,
    {
        k = k - 1;
        s.push(digits[k]);
        assert(digits@.reverse()[15 - k] == digits@[k as int]);
    }
    proof {
        assert(digits@.reverse().take(16) =~= digits@.reverse());
        assert(hex_text(rest as int, 0) =~= Seq::<char>::empty());
        assert(s@ =~= hex_text(fp as int, 16));
    }
    s
}

/// The number that a fingerprint file holds.
pub fn parse_fp(text: &str) -> (r: Option<u64>)
    ensures
        r == parsed_hex(text@),
{
    let v: Vec<char> = chars_of(text);
    let mut from: usize = 0;
    assert(v@.skip(0) =~= v@);
    while from < v.len() && space(v[from])
        invariant
            from <= v@.len(),
            trimmed_front(v@) == trimmed_front(v@.skip(from as int)),
        decreases v@.len() - from,
    {
        assert(v@.skip(from as int).drop_first() =~= v@.skip(from + 1));
        assert(v@.skip(from as int)[0] == v@[from as int]);
        from = from + 1;
    }
    let ghost front = v@.skip(from as int);
    assert(from < v@.len() ==> front[0] == v@[from as int]);
    assert(trimmed_front(v@) == front);
    let mut to: usize = v.len();
    assert(v@.subrange(from as int, to as int) =~= front);
    while to > from && space(v[to - 1])
        invariant
            from <= to <= v@.len(),
            trimmed_back(front) == trimmed_back(v@.subrange(from as int, to as int)),
        decreases to,
    {
        let ghost now = v@.subrange(from as int, to as int);
        assert(now.last() == v@[to - 1]);
        assert(now.drop_last() =~= v@.subrange(from as int, to - 1));
        to = to - 1;
    }
    let ghost t = v@.subrange(from as int, to as int);
    assert(to > from ==> t.last() == v@[to - 1]);
    assert(trimmed_back(front) == t);
    if from < to && v[from] == '+' {
        assert(t[0] == '+');
        assert(t.drop_first() =~= v@.subrange(from + 1, to as int));
        from = from + 1;
    } else {
        assert(t.len() > 0 ==> t[0] == v@[from as int]);
    }
    let ghost digits = v@.subrange(from as int, to as int);
    assert(parsed_hex(text@) == hex_fits(digits));
    if from == to {
        return None;
    }
    let mut x: u64 = 0;
    let mut i: usize = from;
    assert(digits.take(0) =~= Seq::<char>::empty());
    while i < to
        invariant
            from <= i <= to <= v@.len(),
            digits == v@.subrange(from as int, to as int),
            parsed_hex(text@) == hex_fits(digits),
            hex_number(digits.take(i - from)) == Some(x as int),
        decreases to - i,
    {
        let ghost k = i - from;
        proof {
            assert(digits.take(k + 1).drop_last() =~= digits.take(k));
            assert(digits.take(k + 1).last() == v@[i as int]);
        }
        match digit_value(v[i]) {
            None => {
                proof {
                    assert(hex_number(digits.take(k + 1)) is None);
                    lemma_hex_prefix(digits, k + 1);
                }
                return None;
            },
            Some(d) => {
                assert(hex_number(digits.take(k + 1)) == Some(16 * x + d));
                if x > 0x0fff_ffff_ffff_ffff {
                    proof {
                        lemma_hex_prefix(digits, k + 1);
                    }
                    return None;
                }
                x = 16 * x + d;
            },
        }
        i = i + 1;
    }
    assert(digits.take(digits.len() as int) =~= digits);
    Some(x)
}

/// More digits do not make a number less, and nothing makes up for what is no
/// digit.
proof fn lemma_hex_prefix(s: Seq<char>, k: int)
    requires
        0 <= k <= s.len(),
    ensures
        hex_number(s.take(k)) is None ==> hex_number(s) is None,
        hex_number(s) is Some ==> hex_number(s)->0 >= 0 && hex_number(s.take(k)) is Some
            && hex_number(s)->0 >= hex_number(s.take(k))->0,
    decreases s.len(),
{
    if k == s.len() {
        assert(s.take(k) =~= s);
        lemma_hex_nonneg(s);
    } else {
        let t = s.drop_last();
        lemma_hex_prefix(t, k);
        assert(t.take(k) =~= s.take(k));
        lemma_hex_nonneg(s);
        lemma_hex_nonneg(t);
    }
}

proof fn lemma_hex_nonneg(s: Seq<char>)
    ensures
        hex_number(s) is Some ==> hex_number(s)->0 >= 0,
    decreases s.len(),
{
    if s.len() > 0 {
        lemma_hex_nonneg(s.drop_last());
    }
}

/// The digits that a number is written in stand for it.
proof fn lemma_hex_number_back(x: int, width: nat)
    requires
        0 <= x < pow16(width),
    ensures
        hex_text(x, width).len() == width,
        hex_number(hex_text(x, width)) == Some(x),
        forall|i: int| 0 <= i < width ==> hex_value(#[trigger] hex_text(x, width)[i]) is Some,
    decreases width,
{
    if width > 0 {
        let t = hex_text(x, width);
        lemma_hex_number_back(x / 16, (width - 1) as nat);
        assert(t.drop_last() =~= hex_text(x / 16, (width - 1) as nat));
        let d = x % 16;
        assert(hex_value(hex_digit(d)) == Some(d));
        assert forall|i: int| 0 <= i < width implies hex_value(#[trigger] t[i]) is Some by {
            if i < width - 1 {
                assert(t[i] == t.drop_last()[i]);
            }
        }
    }
}

/// A fingerprint is read back from what it was written as.
pub proof fn lemma_fp_back(fp: u64)
    ensures
        parsed_hex(hex_text(fp as int, 16)) == Some(fp),
{
    reveal_with_fuel(pow16, 17);
    assert(pow16(16) == 0x1_0000_0000_0000_0000);
    lemma_hex_number_back(fp as int, 16);
    let t = hex_text(fp as int, 16);
    assert(hex_value(t[0]) is Some);
    assert(hex_value(t[15]) is Some);
    assert(t.last() == t[15]);
    assert(trimmed_front(t) == t);
    assert(trimmed_back(t) == t);
}

/// `x` in decimal digits.
pub open spec fn decimal(x: nat) -> Seq<char>
    decreases x,
{
    if x < 10 {
        seq![hex_digit(x as int)]
    } else {
        decimal(x / 10).push(hex_digit((x % 10) as int))
    }
}

/// Appends `x` in decimal digits.
pub fn push_decimal(s: &mut String, x: u64)
    ensures
        final(s)@ == old(s)@ + decimal(x as nat),
    decreases x,
{
    if x < 10 {
        s.push(digit_char(x));
        assert(s@ =~= old(s)@ + decimal(x as nat));
    } else {
        push_decimal(s, x / 10);
        s.push(digit_char(x % 10));
        assert(s@ =~= old(s)@ + decimal(x as nat));
    }
}

// ---------------------------------------------------------------------------
// Lines
// ---------------------------------------------------------------------------

/// The lines of `list`, with a line feed between two of them.
pub open spec fn joined_lines(list: Seq<Seq<char>>) -> Seq<char>
    decreases list.len(),
{
    if list.len() == 0 {
        Seq::empty()
    } else if list.len() == 1 {
        list[0]
    } else {
        joined_lines(list.drop_last()) + seq!['\n'] + list.last()
    }
}

/// A line that a line feed ended, without the carriage return before that.
pub open spec fn ended(line: Seq<char>) -> Seq<char> {
    if line.len() > 0 && line.last() == '\r' {
        line.drop_last()
    } else {
        line
    }
}

/// The lines of what `s` holds from `from` on, the first of them starting at
/// `start`. A line ends at a line feed, with or without a carriage return before
/// it; what follows the last line feed is a line if it is not empty.
pub open spec fn lines_from(s: Seq<char>, start: int, from: int) -> Seq<Seq<char>>
    decreases s.len() - from,
{
    if from < 0 || from >= s.len() {
        if start < s.len() {
            seq![s.subrange(start, s.len() as int)]
        } else {
            Seq::empty()
        }
    } else if s[from] == '\n' {
        seq![ended(s.subrange(start, from))] + lines_from(s, from + 1, from + 1)
    } else {
        lines_from(s, start, from + 1)
    }
}

/// The lines of `s`.
pub open spec fn lines_of(s: Seq<char>) -> Seq<Seq<char>> {
    lines_from(s, 0, 0)
}

/// The lines of `text`.
pub fn split_lines(text: &str) -> (lines: Vec<String>)
    ensures
        texts(lines@) == lines_of(text@),
{
    let v: Vec<char> = chars_of(text);
    let n: usize = v.len();
    let mut lines: Vec<String> = Vec::new();
    let mut start: usize = 0;
    let mut i: usize = 0;
    assert(texts(lines@) + lines_from(v@, 0, 0) =~= lines_of(text@));
    while i < n
        invariant
            n == v@.len(),
            v@ == text@,
            start <= i <= n,
            texts(lines@) + lines_from(v@, start as int, i as int) == lines_of(text@),
        decreases n - i,
    {
        if v[i] == '\n' {
            let ghost before = texts(lines@);
            let ghost part = v@.subrange(start as int, i as int);
            let end: usize = if i > start && v[i - 1] == '\r' {
                i - 1
            } else {
                i
            };
            let line: String = text_of(&v, start, end);
            proof {
                assert(i > start ==> part.last() == v@[i - 1]);
                assert(line@ =~= ended(part));
            }
            let ghost shown = line@;
            lines.push(line);
            proof {
                assert(texts(lines@) =~= before.push(shown));
                assert(texts(lines@) + lines_from(v@, i + 1, i + 1) =~= before + (seq![shown]
                    + lines_from(v@, i + 1, i + 1)));
            }
            start = i + 1;
        }
        i = i + 1;
    }
    if start < n {
        let ghost before = texts(lines@);
        let line: String = text_of(&v, start, n);
        let ghost shown = line@;
        lines.push(line);
        assert(texts(lines@) =~= before + seq![shown]);
    } else {
        assert(texts(lines@) + Seq::<Seq<char>>::empty() =~= texts(lines@));
    }
    lines
}

/// `list` as lines.
pub fn join_lines(list: &Vec<String>) -> (text: String)
    ensures
        text@ == joined_lines(texts(list@)),
{
    let ghost all = texts(list@);
    let mut text: String = String::new();
    let mut i: usize = 0;
    assert(all.take(0) =~= Seq::<Seq<char>>::empty());
    while i < list.len()
        invariant
            all == texts(list@),
            i <= list@.len(),
            text@ == joined_lines(all.take(i as int)),
        decreases list@.len() - i,
    {
        let ghost before = text@;
        proof {
            let now = all.take(i + 1);
            assert(now.drop_last() =~= all.take(i as int));
            assert(now.last() == list@[i as int]@);
        }
        if i > 0 {
            text.push('\n');
        }
        text.append(list[i].as_str());
        proof {
            if i == 0 {
                assert(before =~= Seq::<char>::empty());
                assert(text@ =~= list@[0]@);
            } else {
                assert(text@ =~= before + seq!['\n'] + list@[i as int]@);
            }
        }
        i = i + 1;
    }
    assert(all.take(list@.len() as int) =~= all);
    text
}

/// A text that can stand in a line: not empty, and without a line feed or a
/// carriage return.
pub open spec fn one_line(s: Seq<char>) -> bool {
    s.len() > 0 && !s.contains('\n') && !s.contains('\r')
}

/// Lines up to the first line feed.
proof fn lemma_lines_skip(s: Seq<char>, start: int, from: int, to: int)
    requires
        0 <= start <= from <= to <= s.len(),
        forall|i: int| from <= i < to ==> s[i] != '\n',
    ensures
        lines_from(s, start, from) == lines_from(s, start, to),
    decreases to - from,
{
    if from < to {
        lemma_lines_skip(s, start, from + 1, to);
    }
}

/// What a text in front of `s` does not change about the lines from `p` on.
proof fn lemma_lines_shift(a: Seq<char>, s: Seq<char>, start: int, from: int)
    requires
        0 <= start <= from <= s.len(),
    ensures
        lines_from(a + s, a.len() + start, a.len() + from) == lines_from(s, start, from),
    decreases s.len() - from,
{
    let t = a + s;
    let l = a.len() as int;
    if from < s.len() {
        assert(t[l + from] == s[from]);
        if s[from] == '\n' {
            assert(t.subrange(l + start, l + from) =~= s.subrange(start, from));
            lemma_lines_shift(a, s, from + 1, from + 1);
        } else {
            lemma_lines_shift(a, s, start, from + 1);
        }
    } else {
        assert(t.subrange(l + start, t.len() as int) =~= s.subrange(start, s.len() as int));
    }
}

proof fn lemma_joined_front(list: Seq<Seq<char>>)
    requires
        list.len() > 1,
    ensures
        joined_lines(list) == list[0] + seq!['\n'] + joined_lines(list.drop_first()),
    decreases list.len(),
{
    let rest = list.drop_first();
    if list.len() == 2 {
        assert(list.drop_last() =~= seq![list[0]]);
        assert(rest =~= seq![list[1]]);
        assert(joined_lines(list.drop_last()) == list[0]);
        assert(joined_lines(rest) == list[1]);
        assert(joined_lines(list) =~= list[0] + seq!['\n'] + joined_lines(rest));
    } else {
        lemma_joined_front(list.drop_last());
        assert(list.drop_last().drop_first() =~= rest.drop_last());
        assert(list.drop_last()[0] == list[0]);
        assert(rest.last() == list.last());
        assert(joined_lines(rest) == joined_lines(rest.drop_last()) + seq!['\n'] + rest.last());
        assert(joined_lines(list) =~= list[0] + seq!['\n'] + joined_lines(rest));
    }
}

/// Lines are read back from the text that they were joined to.
pub proof fn lemma_lines_back(list: Seq<Seq<char>>)
    requires
        forall|i: int| 0 <= i < list.len() ==> one_line(#[trigger] list[i]),
    ensures
        lines_of(joined_lines(list)) == list,
    decreases list.len(),
{
    let s = joined_lines(list);
    if list.len() == 0 {
        assert(lines_of(s) =~= list);
    } else {
        let first = list[0];
        assert(one_line(first));
        assert forall|i: int| 0 <= i < first.len() implies first[i] != '\n' && first[i] != '\r' by {
            assert(first.contains(first[i]));
        }
        let k = first.len() as int;
        if list.len() == 1 {
            lemma_lines_skip(s, 0, 0, k);
            assert(s.subrange(0, k) =~= first);
            assert(lines_of(s) =~= list);
        } else {
            let rest = list.drop_first();
            lemma_joined_front(list);
            let head = first + seq!['\n'];
            let tail = joined_lines(rest);
            assert(s =~= head + tail);
            assert forall|i: int| 0 <= i < k implies s[i] != '\n' by {
                assert(s[i] == first[i]);
            }
            lemma_lines_skip(s, 0, 0, k);
            assert(s[k] == '\n');
            assert(s.subrange(0, k) =~= first);
            assert(ended(first) == first);
            lemma_lines_shift(head, tail, 0, 0);
            assert forall|i: int| 0 <= i < rest.len() implies one_line(#[trigger] rest[i]) by {
                assert(rest[i] == list[i + 1]);
            }
            lemma_lines_back(rest);
            assert(lines_of(s) =~= seq![first] + lines_of(tail));
            assert(lines_of(s) =~= list);
        }
    }
}

} // verus!
