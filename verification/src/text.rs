//! Character-level text model: line splitting, comment stripping, trimming,
//! and decimal parsing, each as a spec function with a verified executable
//! counterpart.

use vstd::prelude::*;

verus! {

/// The whitespace characters that are insignificant at the ends of a line.
pub open spec fn is_space(c: char) -> bool {
    c == ' ' || c == '\t' || c == '\r' || c == '\n'
}

/// A line with its leading whitespace removed.
pub open spec fn trim_start_rec(s: Seq<char>) -> Seq<char>
    decreases s.len(),
{
    if s.len() > 0 && is_space(s[0]) {
        trim_start_rec(s.drop_first())
    } else {
        s
    }
}

/// A line with its trailing whitespace removed.
pub open spec fn trim_end_rec(s: Seq<char>) -> Seq<char>
    decreases s.len(),
{
    if s.len() > 0 && is_space(s.last()) {
        trim_end_rec(s.drop_last())
    } else {
        s
    }
}

/// A line with whitespace removed from both ends.
pub open spec fn spec_trim(s: Seq<char>) -> Seq<char> {
    trim_end_rec(trim_start_rec(s))
}

/// The prefix of a line that precedes the first comment marker `//`.
pub open spec fn strip_comment(s: Seq<char>) -> Seq<char>
    decreases s.len(),
{
    if s.len() < 2 {
        s
    } else if s[0] == '/' && s[1] == '/' {
        Seq::empty()
    } else {
        seq![s[0]] + strip_comment(s.drop_first())
    }
}

/// A source line reduced to its significant text: comment gone, ends trimmed.
pub open spec fn clean_of(s: Seq<char>) -> Seq<char> {
    spec_trim(strip_comment(s))
}

pub fn is_space_char(c: char) -> (r: bool)
    ensures
        r == is_space(c),
{
    c == ' ' || c == '\t' || c == '\r' || c == '\n'
}

proof fn lemma_trim_start_at(s: Seq<char>, a: int)
    requires
        0 <= a <= s.len(),
        forall|j: int| 0 <= j < a ==> is_space(s[j]),
        a < s.len() ==> !is_space(s[a]),
    ensures
        trim_start_rec(s) == s.subrange(a, s.len() as int),
    decreases a,
{
    if a == 0 {
        if s.len() > 0 && is_space(s[0]) {
            assert(false);
        }
        assert(s.subrange(0, s.len() as int) =~= s);
    } else {
        assert(is_space(s[0]));
        let t = s.drop_first();
        lemma_trim_start_at(t, a - 1);
        assert(t.subrange(a - 1, t.len() as int) =~= s.subrange(a, s.len() as int));
    }
}

proof fn lemma_trim_end_at(s: Seq<char>, b: int)
    requires
        0 <= b <= s.len(),
        forall|j: int| b <= j < s.len() ==> is_space(s[j]),
        b > 0 ==> !is_space(s[b - 1]),
    ensures
        trim_end_rec(s) == s.subrange(0, b),
    decreases s.len(),
{
    if b == s.len() {
        if s.len() > 0 && is_space(s.last()) {
            assert(false);
        }
        assert(s.subrange(0, s.len() as int) =~= s);
    } else {
        assert(is_space(s.last()));
        let t = s.drop_last();
        lemma_trim_end_at(t, b);
        assert(t.subrange(0, b) =~= s.subrange(0, b));
    }
}

proof fn lemma_strip_comment_at(s: Seq<char>, k: int)
    requires
        0 <= k <= s.len(),
        forall|j: int| 0 <= j < k ==> !(#[trigger] s[j] == '/' && j + 1 < s.len() && s[j + 1] == '/'),
        k + 1 < s.len() ==> (s[k] == '/' && s[k + 1] == '/'),
    ensures
        strip_comment(s) == s.subrange(0, if k + 1 < s.len() { k } else { s.len() as int }),
    decreases k,
{
    if s.len() < 2 {
        assert(s.subrange(0, s.len() as int) =~= s);
    } else if k == 0 {
        if k + 1 < s.len() {
            assert(strip_comment(s) =~= s.subrange(0, 0));
        } else {
            assert(false);
        }
    } else {
        assert(!(s[0] == '/' && s[1] == '/'));
        let t = s.drop_first();
        lemma_strip_comment_at(t, k - 1);
        if k + 1 < s.len() {
            assert(seq![s[0]] + t.subrange(0, k - 1) =~= s.subrange(0, k));
        } else {
            assert(seq![s[0]] + t.subrange(0, t.len() as int) =~= s.subrange(
                0,
                s.len() as int,
            ));
        }
    }
}

/// The prefix of `line` that precedes the first `//`.
fn cut_comment<'a>(line: &'a str) -> (r: &'a str)
    ensures
        r@ == strip_comment(line@),
{
    let n = line.unicode_len();
    let mut i: usize = 0;
    while n > 0 && i < n - 1
        invariant
            0 <= i <= n,
            n == line@.len(),
            forall|j: int|
                0 <= j < i ==> !(#[trigger] line@[j] == '/' && j + 1 < line@.len() && line@[j
                    + 1] == '/'),
        decreases n - i,
    {
        if line.get_char(i) == '/' && line.get_char(i + 1) == '/' {
            proof {
                lemma_strip_comment_at(line@, i as int);
            }
            return line.substring_char(0, i);
        }
        i = i + 1;
    }
    proof {
        lemma_strip_comment_at(line@, i as int);
    }
    line.substring_char(0, n)
}

/// `stmt` with whitespace removed from both ends.
fn trim_str<'a>(stmt: &'a str) -> (r: &'a str)
    ensures
        r@ == spec_trim(stmt@),
{
    let n = stmt.unicode_len();
    let mut a: usize = 0;
    while a < n && is_space_char(stmt.get_char(a))
        invariant
            0 <= a <= n,
            n == stmt@.len(),
            forall|j: int| 0 <= j < a ==> is_space(stmt@[j]),
        decreases n - a,
    {
        a = a + 1;
    }
    let mut b: usize = n;
    while b > a && is_space_char(stmt.get_char(b - 1))
        invariant
            a <= b <= n,
            n == stmt@.len(),
            forall|j: int| b <= j < n ==> is_space(stmt@[j]),
        decreases b,
    {
        b = b - 1;
    }
    proof {
        lemma_trim_start_at(stmt@, a as int);
        let mid = stmt@.subrange(a as int, n as int);
        if b == a {
            lemma_trim_end_at(mid, 0);
        } else {
            lemma_trim_end_at(mid, b - a);
        }
        assert(mid.subrange(0, b - a) =~= stmt@.subrange(a as int, b as int));
    }
    stmt.substring_char(a, b)
}

/// A source line reduced to its significant text.
pub fn clean_line<'a>(line: &'a str) -> (r: &'a str)
    ensures
        r@ == clean_of(line@),
{
    trim_str(cut_comment(line))
}

/// A line with a trailing carriage return removed, as happens at a `\r\n`
/// line ending.
pub open spec fn chop_cr(s: Seq<char>) -> Seq<char> {
    if s.len() > 0 && s.last() == '\r' {
        s.drop_last()
    } else {
        s
    }
}

/// The lines of `s` when `cur` is the part of the current line already read:
/// lines end at `\n`, a `\r` before the `\n` is dropped, and a final line
/// without a terminator still counts.
pub open spec fn lines_acc(s: Seq<char>, cur: Seq<char>) -> Seq<Seq<char>>
    decreases s.len(),
{
    if s.len() == 0 {
        if cur.len() == 0 {
            Seq::empty()
        } else {
            seq![cur]
        }
    } else if s[0] == '\n' {
        seq![chop_cr(cur)] + lines_acc(s.drop_first(), Seq::empty())
    } else {
        lines_acc(s.drop_first(), cur.push(s[0]))
    }
}

/// The lines of a source text.
pub open spec fn spec_lines(s: Seq<char>) -> Seq<Seq<char>> {
    lines_acc(s, Seq::empty())
}

/// The views of a sequence of string slices.
pub open spec fn str_views(v: Seq<&str>) -> Seq<Seq<char>> {
    v.map_values(|t: &str| t@)
}

/// Splits a source text into its lines.
pub fn split_lines<'a>(input: &'a str) -> (r: Vec<&'a str>)
    ensures
        str_views(r@) == spec_lines(input@),
{
    let n = input.unicode_len();
    let mut out: Vec<&'a str> = Vec::new();
    let mut start: usize = 0;
    let mut i: usize = 0;
    proof {
        assert(input@.subrange(0, n as int) =~= input@);
        assert(input@.subrange(0, 0) =~= Seq::<char>::empty());
        assert(str_views(out@) + lines_acc(input@, Seq::empty()) =~= spec_lines(input@));
    }
    while i < n
        invariant
            0 <= start <= i <= n,
            n == input@.len(),
            str_views(out@) + lines_acc(
                input@.subrange(i as int, n as int),
                input@.subrange(start as int, i as int),
            ) =~= spec_lines(input@),
        decreases n - i,
    {
        let ghost rest = input@.subrange(i as int, n as int);
        let ghost cur = input@.subrange(start as int, i as int);
        let c = input.get_char(i);
        if c == '\n' {
            let line = if i > start && input.get_char(i - 1) == '\r' {
                input.substring_char(start, i - 1)
            } else {
                input.substring_char(start, i)
            };
            proof {
                if i > start && input@[i - 1] == '\r' {
                    assert(line@ =~= chop_cr(cur));
                } else {
                    assert(line@ =~= chop_cr(cur));
                }
                assert(rest.drop_first() =~= input@.subrange(i + 1, n as int));
                assert(input@.subrange(i + 1, i + 1) =~= Seq::<char>::empty());
                assert(str_views(out@.push(line)) =~= str_views(out@).push(line@));
            }
            out.push(line);
            start = i + 1;
        } else {
            proof {
                assert(rest.drop_first() =~= input@.subrange(i + 1, n as int));
                assert(cur.push(input@[i as int]) =~= input@.subrange(
                    start as int,
                    i + 1,
                ));
            }
        }
        i = i + 1;
    }
    if start < n {
        let line = input.substring_char(start, n);
        proof {
            assert(input@.subrange(n as int, n as int) =~= Seq::<char>::empty());
            assert(line@ =~= input@.subrange(start as int, n as int));
            assert(str_views(out@.push(line)) =~= str_views(out@).push(line@));
        }
        out.push(line);
    } else {
        proof {
            assert(input@.subrange(n as int, n as int) =~= Seq::<char>::empty());
            assert(input@.subrange(start as int, n as int) =~= Seq::<char>::empty());
        }
    }
    out
}

/// The index of the first occurrence of `c` in `s`, or `s.len()` when absent.
pub open spec fn find_char(s: Seq<char>, c: char) -> int
    decreases s.len(),
{
    if s.len() == 0 {
        0
    } else if s[0] == c {
        0
    } else {
        1 + find_char(s.drop_first(), c)
    }
}

pub proof fn lemma_find_char(s: Seq<char>, c: char)
    ensures
        0 <= find_char(s, c) <= s.len(),
        find_char(s, c) < s.len() ==> s[find_char(s, c)] == c,
        forall|j: int| 0 <= j < find_char(s, c) ==> s[j] != c,
    decreases s.len(),
{
    if s.len() > 0 && s[0] != c {
        lemma_find_char(s.drop_first(), c);
        assert forall|j: int| 0 <= j < find_char(s, c) implies s[j] != c by {
            if j >= 1 {
                assert(s[j] == s.drop_first()[j - 1]);
            }
        }
    }
}

proof fn lemma_find_char_is(s: Seq<char>, c: char, i: int)
    requires
        0 <= i <= s.len(),
        forall|j: int| 0 <= j < i ==> s[j] != c,
        i < s.len() ==> s[i] == c,
    ensures
        find_char(s, c) == i,
    decreases s.len(),
{
    if s.len() == 0 {
    } else if s[0] == c {
        assert(i == 0);
    } else {
        assert(i >= 1);
        lemma_find_char_is(s.drop_first(), c, i - 1);
    }
}

/// The index of the first occurrence of `c` in `s`, or the length when absent.
pub fn find_char_str(s: &str, c: char) -> (i: usize)
    ensures
        i as int == find_char(s@, c),
{
    let n = s.unicode_len();
    let mut i: usize = 0;
    while i < n
        invariant
            0 <= i <= n,
            n == s@.len(),
            forall|j: int| 0 <= j < i ==> s@[j] != c,
        decreases n - i,
    {
        if s.get_char(i) == c {
            proof {
                lemma_find_char_is(s@, c, i as int);
            }
            return i;
        }
        i = i + 1;
    }
    proof {
        lemma_find_char_is(s@, c, n as int);
    }
    n
}

/// Whether `c` is a decimal digit.
pub open spec fn is_digit(c: char) -> bool {
    '0' <= c && c <= '9'
}

/// The value of a decimal digit.
pub open spec fn digit_val(c: char) -> int {
    c as int - '0' as int
}

/// Whether every character of `s` is a decimal digit.
pub open spec fn all_digits(s: Seq<char>) -> bool {
    forall|i: int| 0 <= i < s.len() ==> is_digit(#[trigger] s[i])
}

/// The numeric value of a digit string.
pub open spec fn digits_val(s: Seq<char>) -> int
    decreases s.len(),
{
    if s.len() == 0 {
        0
    } else {
        digits_val(s.drop_last()) * 10 + digit_val(s.last())
    }
}

/// How `str::parse::<u16>` reads a name: an optional leading `+`, then one
/// or more decimal digits whose value fits in sixteen bits.
pub open spec fn spec_parse_u16(s: Seq<char>) -> Option<u16> {
    let d = if s.len() > 0 && s[0] == '+' {
        s.drop_first()
    } else {
        s
    };
    if d.len() > 0 && all_digits(d) && digits_val(d) <= 65535 {
        Some(digits_val(d) as u16)
    } else {
        None
    }
}

proof fn lemma_digits_val_bounds(s: Seq<char>)
    requires
        all_digits(s),
    ensures
        digits_val(s) >= 0,
        s.len() > 0 ==> digits_val(s) >= digits_val(s.drop_last()),
    decreases s.len(),
{
    if s.len() > 0 {
        assert(is_digit(s.last()));
        lemma_digits_val_bounds(s.drop_last());
    }
}

proof fn lemma_digits_val_prefix(s: Seq<char>, k: int)
    requires
        all_digits(s),
        0 <= k <= s.len(),
    ensures
        digits_val(s) >= digits_val(s.subrange(0, k)),
    decreases s.len() - k,
{
    if k == s.len() {
        assert(s.subrange(0, k) =~= s);
    } else {
        lemma_digits_val_prefix(s, k + 1);
        let t = s.subrange(0, k + 1);
        assert(all_digits(t));
        assert(t.drop_last() =~= s.subrange(0, k));
        lemma_digits_val_bounds(t);
    }
}

/// The numeric reading of an address-instruction operand, as
/// `str::parse::<u16>` would make it.
pub fn parse_u16_str(s: &str) -> (r: Option<u16>)
    ensures
        r == spec_parse_u16(s@),
{
    let n = s.unicode_len();
    let mut i: usize = 0;
    if n > 0 && s.get_char(0) == '+' {
        i = 1;
    }
    let ghost d = if s@.len() > 0 && s@[0] == '+' {
        s@.drop_first()
    } else {
        s@
    };
    let ghost off = i as int;
    if i >= n {
        return None;
    }
    let mut acc: u32 = 0;
    let mut k: usize = i;
    while k < n
        invariant
            off <= k <= n,
            off == if s@.len() > 0 && s@[0] == '+' { 1int } else { 0int },
            n == s@.len(),
            d =~= s@.subrange(off, n as int),
            forall|j: int| off <= j < k ==> is_digit(#[trigger] s@[j]),
            acc as int == digits_val(s@.subrange(off, k as int)),
            acc <= 65535,
        decreases n - k,
    {
        let c = s.get_char(k);
        if c < '0' || c > '9' {
            proof {
                assert(d =~= (if s@.len() > 0 && s@[0] == '+' {
                    s@.drop_first()
                } else {
                    s@
                }));
                assert(d[k - off] == s@[k as int]);
                assert(!all_digits(d));
            }
            return None;
        }
        let dv: u32 = (c as u32) - ('0' as u32);
        proof {
            assert(dv == digit_val(s@[k as int]));
            let t = s@.subrange(off, k + 1);
            assert(t.drop_last() =~= s@.subrange(off, k as int));
            assert(t.last() == s@[k as int]);
        }
        acc = acc * 10 + dv;
        k = k + 1;
        if acc > 65535 {
            proof {
                assert(d =~= (if s@.len() > 0 && s@[0] == '+' {
                    s@.drop_first()
                } else {
                    s@
                }));
                let t2 = s@.subrange(off, k as int);
                assert(t2.drop_last() =~= s@.subrange(off, k - 1));
                assert(t2.last() == s@[k - 1]);
                assert(acc as int == digits_val(t2));
                if all_digits(d) {
                    assert(d.subrange(0, k - off) =~= t2);
                    lemma_digits_val_prefix(d, k - off);
                    assert(digits_val(d) > 65535);
                }
            }
            return None;
        }
    }
    proof {
        assert(d =~= (if s@.len() > 0 && s@[0] == '+' {
            s@.drop_first()
        } else {
            s@
        }));
        assert(d =~= s@.subrange(off, n as int));
        assert(all_digits(d));
        assert(digits_val(d) == acc as int);
    }
    Some(acc as u16)
}

/// Whether two string slices hold the same characters.
pub fn str_eq(a: &str, b: &str) -> (r: bool)
    ensures
        r == (a@ == b@),
{
    let n = a.unicode_len();
    if n != b.unicode_len() {
        return false;
    }
    let mut i: usize = 0;
    while i < n
        invariant
            0 <= i <= n,
            n == a@.len(),
            n == b@.len(),
            forall|j: int| 0 <= j < i ==> a@[j] == b@[j],
        decreases n - i,
    {
        if a.get_char(i) != b.get_char(i) {
            return false;
        }
        i = i + 1;
    }
    proof {
        assert(a@ =~= b@);
    }
    true
}

} // verus!
