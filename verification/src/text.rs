//! Text as sequences of characters: trimming, lines and decimal numbers.

use vstd::prelude::*;

verus! {

/// Whether `c` is white space as Unicode defines it (White_Space).
pub uninterp spec fn white_space(c: char) -> bool;

/// `char::is_whitespace` of std tells whether the character is white space
/// as Unicode defines it; its answer is given the name [`white_space`].
pub assume_specification[ char::is_whitespace ](c: char) -> (r: bool)
    ensures
        r == white_space(c),
;

/// `String::push` of std appends one character to the end of the string.
pub assume_specification[ String::push ](s: &mut String, c: char)
    ensures
        final(s)@ == old(s)@.push(c),
;

/// `s` without the white space it starts with.
pub open spec fn trim_start(s: Seq<char>) -> Seq<char>
    decreases s.len(),
{
    if s.len() > 0 && white_space(s[0]) {
        trim_start(s.drop_first())
    } else {
        s
    }
}

/// `s` without the white space it ends with.
pub open spec fn trim_end(s: Seq<char>) -> Seq<char>
    decreases s.len(),
{
    if s.len() > 0 && white_space(s.last()) {
        trim_end(s.drop_last())
    } else {
        s
    }
}

/// `s` without the white space around it.
pub open spec fn trimmed(s: Seq<char>) -> Seq<char> {
    trim_end(trim_start(s))
}

/// Where the first line feed of `s` stands, or the length of `s` if it has none.
pub open spec fn newline_at(s: Seq<char>) -> nat
    decreases s.len(),
{
    if s.len() == 0 || s[0] == '\n' {
        0
    } else {
        1 + newline_at(s.drop_first())
    }
}

/// A line without the carriage return that may stand before its line feed.
pub open spec fn strip_cr(line: Seq<char>) -> Seq<char> {
    if line.len() > 0 && line.last() == '\r' {
        line.drop_last()
    } else {
        line
    }
}

/// The lines of `s`. A line ends at a line feed or at the end of the text;
/// the line feed, and a carriage return right before it, are not part of the
/// line. Text that ends in a line feed has no empty last line.
pub open spec fn lines_of(s: Seq<char>) -> Seq<Seq<char>>
    decreases s.len(),
{
    if s.len() == 0 {
        Seq::empty()
    } else {
        let n = newline_at(s) as int;
        if n < s.len() {
            seq![strip_cr(s.take(n))] + lines_of(s.skip(n + 1))
        } else {
            seq![s]
        }
    }
}

/// The digit that stands for `d`, for `d` below ten.
pub open spec fn digit(d: nat) -> char {
    if d == 0 {
        '0'
    } else if d == 1 {
        '1'
    } else if d == 2 {
        '2'
    } else if d == 3 {
        '3'
    } else if d == 4 {
        '4'
    } else if d == 5 {
        '5'
    } else if d == 6 {
        '6'
    } else if d == 7 {
        '7'
    } else if d == 8 {
        '8'
    } else {
        '9'
    }
}

/// `n` written in decimal, without leading zeros.
pub open spec fn decimal(n: nat) -> Seq<char>
    decreases n,
{
    if n < 10 {
        seq![digit(n)]
    } else {
        decimal(n / 10).push(digit(n % 10))
    }
}

/// The characters of `s`, in order.
pub fn to_chars(s: &str) -> (v: Vec<char>)
    ensures
        v@ == s@,
{
    let mut v: Vec<char> = Vec::new();
    for c in it: s.chars()
        invariant
            v@ == it.seq().take(it.index() as int),
    {
        v.push(c);
    }
    v
}

/// The text made of the characters of `v` from `from` up to `to`.
pub fn from_chars(v: &Vec<char>, from: usize, to: usize) -> (s: String)
    requires
        from <= to <= v.len(),
    ensures
        s@ == v@.subrange(from as int, to as int),
{
    let mut s = String::new();
    let mut i: usize = from;
    while i < to
        invariant
            from <= i <= to <= v.len(),
            s@ == v@.subrange(from as int, i as int),
        decreases to - i,
    {
        s.push(v[i]);
        i += 1;
        assert(s@ =~= v@.subrange(from as int, i as int));
    }
    s
}

/// Where `v` without the white space around it starts and ends.
pub fn trim_bounds(v: &Vec<char>) -> (r: (usize, usize))
    ensures
        r.0 <= r.1 <= v.len(),
        v@.subrange(r.0 as int, r.1 as int) == trimmed(v@),
{
    let len = v.len();
    let mut a: usize = 0;
    assert(v@.subrange(0, len as int) =~= v@);
    while a < len && v[a].is_whitespace()
        invariant
            a <= len == v.len(),
            trim_start(v@) == trim_start(v@.subrange(a as int, len as int)),
        decreases len - a,
    {
        assert(v@.subrange(a as int, len as int).drop_first() =~= v@.subrange(
            a as int + 1,
            len as int,
        ));
        a += 1;
    }
    let mut b: usize = len;
    while b > a && v[b - 1].is_whitespace()
        invariant
            a <= b <= len == v.len(),
            trim_end(v@.subrange(a as int, len as int)) == trim_end(
                v@.subrange(a as int, b as int),
            ),
        decreases b - a,
    {
        assert(v@.subrange(a as int, b as int).drop_last() =~= v@.subrange(
            a as int,
            b as int - 1,
        ));
        b -= 1;
    }
    (a, b)
}

/// `s` without the white space around it.
pub fn trim(s: &str) -> (r: String)
    ensures
        r@ == trimmed(s@),
{
    let v = to_chars(s);
    let (a, b) = trim_bounds(&v);
    from_chars(&v, a, b)
}

/// Whether the text of `v` from `from` up to `to` is `c` three times over.
pub fn is_rule(v: &Vec<char>, from: usize, to: usize, c: char) -> (r: bool)
    requires
        from <= to <= v.len(),
    ensures
        r == (v@.subrange(from as int, to as int) == seq![c, c, c]),
{
    let ghost part = v@.subrange(from as int, to as int);
    if to - from != 3 {
        assert(seq![c, c, c].len() == 3);
        return false;
    }
    let r = v[from] == c && v[from + 1] == c && v[from + 2] == c;
    proof {
        assert(part[0] == v@[from as int]);
        assert(part[1] == v@[from as int + 1]);
        assert(part[2] == v@[from as int + 2]);
        if r {
            assert(part =~= seq![c, c, c]);
        } else {
            assert(seq![c, c, c][0] == c && seq![c, c, c][1] == c && seq![c, c, c][2] == c);
        }
    }
    r
}

/// Where the first line feed at or after `from` stands, or the length of `v`.
fn find_newline(v: &Vec<char>, from: usize) -> (e: usize)
    requires
        from <= v.len(),
    ensures
        from <= e <= v.len(),
        e - from == newline_at(v@.skip(from as int)),
{
    let mut e: usize = from;
    while e < v.len() && v[e] != '\n'
        invariant
            from <= e <= v.len(),
            newline_at(v@.skip(from as int)) == (e - from) + newline_at(v@.skip(e as int)),
        decreases v.len() - e,
    {
        assert(v@.skip(e as int).drop_first() =~= v@.skip(e as int + 1));
        e += 1;
    }
    e
}

/// A copy of the characters of `v` from `from` up to `to`.
fn copy_range(v: &Vec<char>, from: usize, to: usize) -> (r: Vec<char>)
    requires
        from <= to <= v.len(),
    ensures
        r@ == v@.subrange(from as int, to as int),
{
    let mut r: Vec<char> = Vec::new();
    let mut i: usize = from;
    while i < to
        invariant
            from <= i <= to <= v.len(),
            r@ == v@.subrange(from as int, i as int),
        decreases to - i,
    {
        r.push(v[i]);
        i += 1;
        assert(r@ =~= v@.subrange(from as int, i as int));
    }
    r
}

/// The lines of `v`.
pub fn split_lines(v: &Vec<char>) -> (lines: Vec<Vec<char>>)
    ensures
        lines.deep_view() == lines_of(v@),
{
    let len = v.len();
    let mut lines: Vec<Vec<char>> = Vec::new();
    let mut start: usize = 0;
    assert(v@.skip(0) =~= v@);
    while start < len
        invariant
            start <= len == v.len(),
            lines_of(v@) == lines.deep_view() + lines_of(v@.skip(start as int)),
        decreases len - start,
    {
        let ghost rest = v@.skip(start as int);
        let ghost before = lines.deep_view();
        let e = find_newline(v, start);
        let ghost n = e - start;
        if e < len {
            let stop = if e > start && v[e - 1] == '\r' {
                e - 1
            } else {
                e
            };
            let line = copy_range(v, start, stop);
            proof {
                assert(rest.take(n) =~= v@.subrange(start as int, e as int));
                assert(line@ =~= strip_cr(rest.take(n)));
                assert(rest.skip(n + 1) =~= v@.skip(e as int + 1));
            }
            lines.push(line);
            start = e + 1;
            proof {
                assert(lines.deep_view() =~~= before + seq![strip_cr(rest.take(n))]);
                assert(before + lines_of(rest) =~= lines.deep_view() + lines_of(
                    v@.skip(start as int),
                ));
            }
        } else {
            let line = copy_range(v, start, len);
            proof {
                assert(line@ =~= rest);
            }
            lines.push(line);
            start = len;
            proof {
                assert(lines.deep_view() =~~= before + seq![rest]);
                assert(lines_of(v@.skip(start as int)) =~= Seq::<Seq<char>>::empty());
                assert(before + lines_of(rest) =~= lines.deep_view() + lines_of(
                    v@.skip(start as int),
                ));
            }
        }
    }
    proof {
        assert(lines_of(v@.skip(start as int)) =~= Seq::<Seq<char>>::empty());
        assert(lines.deep_view() + Seq::<Seq<char>>::empty() =~= lines.deep_view());
    }
    lines
}

/// The digit that stands for `d`.
fn digit_char(d: usize) -> (c: char)
    requires
        d < 10,
    ensures
        c == digit(d as nat),
{
    if d == 0 {
        '0'
    } else if d == 1 {
        '1'
    } else if d == 2 {
        '2'
    } else if d == 3 {
        '3'
    } else if d == 4 {
        '4'
    } else if d == 5 {
        '5'
    } else if d == 6 {
        '6'
    } else if d == 7 {
        '7'
    } else if d == 8 {
        '8'
    } else {
        '9'
    }
}

/// `n` written in decimal.
pub fn decimal_string(n: usize) -> (s: String)
    ensures
        s@ == decimal(n as nat),
    decreases n,
{
    if n < 10 {
        let mut s = String::new();
        s.push(digit_char(n));
        assert(s@ =~= seq![digit(n as nat)]);
        s
    } else {
        let mut s = decimal_string(n / 10);
        s.push(digit_char(n % 10));
        s
    }
}

} // verus!
