//! Character-sequence utilities shared by the feed engine: decimal
//! rendering, prefix/suffix matching, line splitting and joining, and
//! whitespace trimming, each specified over `Seq<char>` views.
use vstd::prelude::*;

verus! {

/// Appends one character to a string.
///
/// Relies on std's `String::push`, which appends the given `char` to the
/// end of the string.
#[verifier::external_body]
pub fn push_char(s: &mut String, c: char)
    ensures
        final(s)@ == old(s)@ + seq![c],
{
    s.push(c);
}

pub open spec fn dec_digit(d: int) -> char {
    if d == 0 {
        '0'
    } else if d == 1 {
        '1'
    } else if d == 2 {
        '2'
    } else if d == 3 {
        '3'
    } else if d == 4 {
        '4'
    } else if d == 5 {
        '5'
    } else if d == 6 {
        '6'
    } else if d == 7 {
        '7'
    } else if d == 8 {
        '8'
    } else {
        '9'
    }
}

/// Decimal rendering of a non-negative integer, without leading zeros.
pub open spec fn dec_str_of(n: int) -> Seq<char>
    decreases n,
{
    if n < 10 {
        seq![dec_digit(n)]
    } else {
        dec_str_of(n / 10) + seq![dec_digit(n % 10)]
    }
}

/// Decimal rendering zero-padded to two digits.
pub open spec fn pad2_of(n: int) -> Seq<char> {
    seq![dec_digit(n / 10), dec_digit(n % 10)]
}

/// Decimal rendering zero-padded to four digits.
pub open spec fn pad4_of(n: int) -> Seq<char> {
    seq![
        dec_digit(n / 1000),
        dec_digit((n / 100) % 10),
        dec_digit((n / 10) % 10),
        dec_digit(n % 10),
    ]
}

/// Decimal rendering padded to a minimum width of two digits, growing
/// beyond two digits as the value demands.
pub open spec fn pad2_min_of(n: int) -> Seq<char> {
    if n < 100 {
        pad2_of(n)
    } else {
        dec_str_of(n)
    }
}

/// A decimal rendering is never empty and holds digit characters only.
pub proof fn lemma_dec_str_plain(n: int)
    ensures
        dec_str_of(n).len() >= 1,
        forall|j: int| 0 <= j < dec_str_of(n).len() ==> !is_ws(#[trigger] dec_str_of(n)[j]),
    decreases n,
{
    assert(forall|x: int| !is_ws(#[trigger] dec_digit(x)));
    if n >= 10 {
        lemma_dec_str_plain(n / 10);
    }
}

/// A padded decimal rendering holds no whitespace.
pub proof fn lemma_pad2_min_plain(n: int)
    ensures
        pad2_min_of(n).len() >= 2,
        forall|j: int| 0 <= j < pad2_min_of(n).len() ==> !is_ws(#[trigger] pad2_min_of(n)[j]),
{
    assert(forall|x: int| !is_ws(#[trigger] dec_digit(x)));
    if n >= 100 {
        lemma_dec_str_plain(n);
        lemma_dec_str_plain(n / 10);
    }
}

fn digit_char(d: u8) -> (c: char)
    requires
        d < 10,
    ensures
        c == dec_digit(d as int),
{
    match d {
        0 => '0',
        1 => '1',
        2 => '2',
        3 => '3',
        4 => '4',
        5 => '5',
        6 => '6',
        7 => '7',
        8 => '8',
        _ => '9',
    }
}

/// Renders an unsigned integer in decimal.
pub fn u64_str(n: u64) -> (r: String)
    ensures
        r@ == dec_str_of(n as int),
    decreases n,
{
    if n < 10 {
        let mut s = String::new();
        push_char(&mut s, digit_char(n as u8));
        assert(s@ =~= dec_str_of(n as int));
        s
    } else {
        let mut s = u64_str(n / 10);
        push_char(&mut s, digit_char((n % 10) as u8));
        assert(s@ =~= dec_str_of(n as int));
        s
    }
}

/// Renders a value below one hundred as exactly two decimal digits.
pub fn pad2(n: u8) -> (r: String)
    requires
        n < 100,
    ensures
        r@ == pad2_of(n as int),
{
    let mut s = String::new();
    push_char(&mut s, digit_char(n / 10));
    push_char(&mut s, digit_char(n % 10));
    assert(s@ =~= pad2_of(n as int));
    s
}

/// Renders a value below ten thousand as exactly four decimal digits.
pub fn pad4(n: u16) -> (r: String)
    requires
        n < 10000,
    ensures
        r@ == pad4_of(n as int),
{
    let mut s = String::new();
    push_char(&mut s, digit_char((n / 1000) as u8));
    push_char(&mut s, digit_char(((n / 100) % 10) as u8));
    push_char(&mut s, digit_char(((n / 10) % 10) as u8));
    push_char(&mut s, digit_char((n % 10) as u8));
    assert(s@ =~= pad4_of(n as int));
    s
}

/// Renders a value with a minimum width of two decimal digits.
pub fn pad2_min(n: u64) -> (r: String)
    ensures
        r@ == pad2_min_of(n as int),
{
    if n < 100 {
        pad2(n as u8)
    } else {
        u64_str(n)
    }
}

pub open spec fn is_prefix_of(p: Seq<char>, s: Seq<char>) -> bool {
    p.len() <= s.len() && (forall|i: int| 0 <= i < p.len() ==> s[i] == p[i])
}

pub open spec fn is_suffix_of(p: Seq<char>, s: Seq<char>) -> bool {
    p.len() <= s.len() && (forall|i: int|
        0 <= i < p.len() ==> s[s.len() - p.len() + i] == p[i])
}

/// Decides whether `p` is a prefix of `s`, character for character.
pub fn has_prefix(s: &str, p: &str) -> (r: bool)
    ensures
        r == is_prefix_of(p@, s@),
{
    let np = p.unicode_len();
    let ns = s.unicode_len();
    if np > ns {
        return false;
    }
    let mut i: usize = 0;
    while i < np
        invariant
            i <= np == p@.len(),
            np <= ns == s@.len(),
            forall|j: int| 0 <= j < i ==> s@[j] == p@[j],
        decreases np - i,
    {
        if s.get_char(i) != p.get_char(i) {
            return false;
        }
        i = i + 1;
    }
    true
}

/// Decides whether `p` is a suffix of `s`, character for character.
pub fn has_suffix(s: &str, p: &str) -> (r: bool)
    ensures
        r == is_suffix_of(p@, s@),
{
    let np = p.unicode_len();
    let ns = s.unicode_len();
    if np > ns {
        return false;
    }
    let off = ns - np;
    let mut i: usize = 0;
    while i < np
        invariant
            i <= np == p@.len(),
            np <= ns == s@.len(),
            off == ns - np,
            forall|j: int| 0 <= j < i ==> s@[off + j] == p@[j],
        decreases np - i,
    {
        if s.get_char(off + i) != p.get_char(i) {
            return false;
        }
        i = i + 1;
    }
    true
}

/// Decides whether two string slices hold the same characters.
pub fn str_eq(a: &str, b: &str) -> (r: bool)
    ensures
        r == (a@ == b@),
{
    let na = a.unicode_len();
    let nb = b.unicode_len();
    if na != nb {
        return false;
    }
    let mut i: usize = 0;
    while i < na
        invariant
            i <= na == a@.len(),
            na == nb == b@.len(),
            forall|j: int| 0 <= j < i ==> a@[j] == b@[j],
        decreases na - i,
    {
        if a.get_char(i) != b.get_char(i) {
            return false;
        }
        i = i + 1;
    }
    proof {
        assert(a@ =~= b@);
    }
    true
}

/// The payload between a fixed prefix and suffix, when both are present
/// without overlapping.
pub open spec fn affix_payload_of(s: Seq<char>, pre: Seq<char>, suf: Seq<char>) -> Seq<char> {
    s.subrange(pre.len() as int, s.len() - suf.len())
}

pub open spec fn has_affixes(s: Seq<char>, pre: Seq<char>, suf: Seq<char>) -> bool {
    &&& pre.len() + suf.len() <= s.len()
    &&& is_prefix_of(pre, s)
    &&& is_suffix_of(suf, s)
}

/// Strips a fixed prefix and suffix from a line, returning the payload
/// between them, or `None` when the line is not of that shape.
pub fn strip_affixes(s: &str, pre: &str, suf: &str) -> (r: Option<String>)
    ensures
        r is Some <==> has_affixes(s@, pre@, suf@),
        r matches Some(mid) ==> mid@ == affix_payload_of(s@, pre@, suf@),
{
    let ns = s.unicode_len();
    let npre = pre.unicode_len();
    let nsuf = suf.unicode_len();
    if npre > ns || nsuf > ns - npre {
        return None;
    }
    if !has_prefix(s, pre) {
        return None;
    }
    if !has_suffix(s, suf) {
        return None;
    }
    let mid = s.substring_char(npre, ns - nsuf);
    Some(mid.to_owned())
}

/// Whether `sub` occurs contiguously anywhere in `s`.
pub open spec fn contains_seq(s: Seq<char>, sub: Seq<char>) -> bool {
    exists|i: int|
        0 <= i && i + sub.len() <= s.len() && #[trigger] s.subrange(i, i + sub.len()) == sub
}

/// Decides whether `sub` occurs contiguously anywhere in `s`.
pub fn contains_str(s: &str, sub: &str) -> (r: bool)
    ensures
        r == contains_seq(s@, sub@),
{
    let n = s.unicode_len();
    let m = sub.unicode_len();
    if m > n {
        return false;
    }
    let mut i: usize = 0;
    while i <= n - m
        invariant
            m <= n == s@.len(),
            m == sub@.len(),
            i <= n - m + 1,
            forall|j: int| 0 <= j < i ==> #[trigger] s@.subrange(j, j + sub@.len()) != sub@,
        decreases n - m + 1 - i,
    {
        let tail = s.substring_char(i, n);
        if has_prefix(tail, sub) {
            proof {
                assert(s@.subrange(i as int, i + sub@.len()) =~= sub@);
            }
            return true;
        }
        proof {
            if s@.subrange(i as int, i + sub@.len()) == sub@ {
                assert forall|k: int| 0 <= k < sub@.len() implies tail@[k] == sub@[k] by {
                    assert(s@.subrange(i as int, i + sub@.len())[k] == s@[i + k]);
                }
                assert(is_prefix_of(sub@, tail@));
            }
        }
        i = i + 1;
    }
    proof {
        assert forall|j: int|
            !(0 <= j && j + sub@.len() <= s@.len() && #[trigger] s@.subrange(j, j + sub@.len())
                == sub@) by {
            if 0 <= j && j + sub@.len() <= s@.len() {
                assert(j < i);
            }
        }
    }
    false
}

pub open spec fn is_ws(c: char) -> bool {
    c == ' ' || c == '\t' || c == '\r' || c == '\n'
}

/// The line with leading and trailing whitespace removed.
pub open spec fn trim_of(s: Seq<char>) -> Seq<char>
    decreases s.len(),
{
    if s.len() > 0 && is_ws(s[0]) {
        trim_of(s.drop_first())
    } else if s.len() > 0 && is_ws(s.last()) {
        trim_of(s.drop_last())
    } else {
        s
    }
}

fn char_is_ws(c: char) -> (r: bool)
    ensures
        r == is_ws(c),
{
    c == ' ' || c == '\t' || c == '\r' || c == '\n'
}

/// Removes leading and trailing whitespace from a line.
pub fn trim_line(s: &str) -> (r: String)
    ensures
        r@ == trim_of(s@),
    decreases s@.len(),
{
    let n = s.unicode_len();
    if n > 0 && char_is_ws(s.get_char(0)) {
        let rest = s.substring_char(1, n);
        assert(rest@ =~= s@.drop_first());
        trim_line(rest)
    } else if n > 0 && char_is_ws(s.get_char(n - 1)) {
        let rest = s.substring_char(0, n - 1);
        assert(rest@ =~= s@.drop_last());
        trim_line(rest)
    } else {
        s.to_owned()
    }
}

/// Index of the first occurrence of `c` in `s`, or `-1` when absent.
pub open spec fn find_char(s: Seq<char>, c: char) -> int
    decreases s.len(),
{
    if s.len() == 0 {
        -1
    } else if s[0] == c {
        0
    } else {
        let r = find_char(s.drop_first(), c);
        if r < 0 {
            -1
        } else {
            r + 1
        }
    }
}

pub proof fn lemma_find_char_at(s: Seq<char>, c: char, k: int)
    requires
        0 <= k < s.len(),
        s[k] == c,
        forall|j: int| 0 <= j < k ==> s[j] != c,
    ensures
        find_char(s, c) == k,
    decreases s.len(),
{
    if k > 0 {
        assert(forall|j: int| 0 <= j < k - 1 ==> s.drop_first()[j] != c);
        lemma_find_char_at(s.drop_first(), c, k - 1);
    }
}

pub proof fn lemma_find_char_none(s: Seq<char>, c: char)
    requires
        forall|j: int| 0 <= j < s.len() ==> s[j] != c,
    ensures
        find_char(s, c) == -1,
    decreases s.len(),
{
    if s.len() > 0 {
        lemma_find_char_none(s.drop_first(), c);
    }
}

/// The lines of a text, split on `'\n'`; a trailing newline closes the
/// final line rather than opening an empty one.
pub open spec fn lines_of(s: Seq<char>) -> Seq<Seq<char>>
    decreases s.len(),
{
    if s.len() == 0 {
        Seq::empty()
    } else {
        let k = find_char(s, '\n');
        if k < 0 || k >= s.len() {
            seq![s]
        } else {
            seq![s.subrange(0, k)] + lines_of(s.subrange(k + 1, s.len() as int))
        }
    }
}

pub open spec fn seq_views(v: Seq<String>) -> Seq<Seq<char>> {
    v.map_values(|l: String| l@)
}

/// Splits a text into its lines.
pub fn split_lines(s: &str) -> (r: Vec<String>)
    ensures
        seq_views(r@) == lines_of(s@),
{
    let n = s.unicode_len();
    let mut res: Vec<String> = Vec::new();
    let mut start: usize = 0;
    let mut i: usize = 0;
    proof {
        assert(s@.subrange(0, n as int) =~= s@);
        assert(seq_views(res@) + lines_of(s@) =~= lines_of(s@));
    }
    while i < n
        invariant
            start <= i <= n == s@.len(),
            forall|j: int| start <= j < i ==> s@[j] != '\n',
            lines_of(s@) == seq_views(res@) + lines_of(s@.subrange(start as int, n as int)),
        decreases n - i,
    {
        if s.get_char(i) == '\n' {
            let line = s.substring_char(start, i);
            proof {
                let rest = s@.subrange(start as int, n as int);
                assert(forall|j: int|
                    0 <= j < i - start ==> rest[j] == s@[start + j] && rest[j] != '\n');
                assert(rest[i - start] == '\n');
                lemma_find_char_at(rest, '\n', i - start);
                assert(rest.subrange(0, i - start) =~= s@.subrange(start as int, i as int));
                assert(rest.subrange(i - start + 1, rest.len() as int) =~= s@.subrange(
                    i + 1,
                    n as int,
                ));
                assert(line@ == s@.subrange(start as int, i as int));
            }
            res.push(line.to_owned());
            proof {
                assert(seq_views(res@) =~= seq_views(res@.drop_last()) + seq![s@.subrange(
                    start as int,
                    i as int,
                )]);
                assert(lines_of(s@) =~= seq_views(res@) + lines_of(s@.subrange(i + 1, n as int)));
            }
            start = i + 1;
        }
        i = i + 1;
    }
    if start < n {
        let line = s.substring_char(start, n);
        proof {
            let rest = s@.subrange(start as int, n as int);
            assert(forall|j: int|
                0 <= j < rest.len() ==> rest[j] == s@[start + j] && rest[j] != '\n');
            lemma_find_char_none(rest, '\n');
            assert(line@ == rest);
        }
        res.push(line.to_owned());
        proof {
            assert(seq_views(res@) =~= seq_views(res@.drop_last()) + seq![s@.subrange(
                start as int,
                n as int,
            )]);
            assert(lines_of(s@) =~= seq_views(res@));
        }
    } else {
        proof {
            assert(s@.subrange(start as int, n as int).len() == 0);
            assert(lines_of(s@) =~= seq_views(res@));
        }
    }
    res
}

/// The lines joined back into one text, each line closed by `'\n'`.
pub open spec fn join_lines_of(ls: Seq<Seq<char>>) -> Seq<char>
    decreases ls.len(),
{
    if ls.len() == 0 {
        Seq::empty()
    } else {
        ls[0] + seq!['\n'] + join_lines_of(ls.drop_first())
    }
}

pub proof fn lemma_join_lines_push(ls: Seq<Seq<char>>, x: Seq<char>)
    ensures
        join_lines_of(ls.push(x)) == join_lines_of(ls) + x + seq!['\n'],
    decreases ls.len(),
{
    if ls.len() == 0 {
        assert(ls.push(x).drop_first() =~= Seq::<Seq<char>>::empty());
        assert(join_lines_of(ls.push(x)) == ls.push(x)[0] + seq!['\n'] + join_lines_of(
            ls.push(x).drop_first(),
        ));
        assert(ls.push(x)[0] == x);
        assert(join_lines_of(ls.push(x)) =~= join_lines_of(ls) + x + seq!['\n']);
    } else {
        assert(ls.push(x).drop_first() =~= ls.drop_first().push(x));
        lemma_join_lines_push(ls.drop_first(), x);
        assert(join_lines_of(ls.push(x)) == ls.push(x)[0] + seq!['\n'] + join_lines_of(
            ls.push(x).drop_first(),
        ));
        assert(ls.push(x)[0] == ls[0]);
        assert(join_lines_of(ls.push(x).drop_first()) == join_lines_of(ls.drop_first()) + x
            + seq!['\n']);
        assert(join_lines_of(ls) == ls[0] + seq!['\n'] + join_lines_of(ls.drop_first()));
        assert(join_lines_of(ls.push(x)) =~= join_lines_of(ls) + x + seq!['\n']);
    }
}

/// Joins a vector of lines into one text.
pub fn join_lines(ls: &Vec<String>) -> (r: String)
    ensures
        r@ == join_lines_of(seq_views(ls@)),
{
    let mut out = String::new();
    let mut i: usize = 0;
    while i < ls.len()
        invariant
            i <= ls@.len(),
            out@ == join_lines_of(seq_views(ls@.subrange(0, i as int))),
        decreases ls@.len() - i,
    {
        out.append(ls[i].as_str());
        push_char(&mut out, '\n');
        proof {
            assert(seq_views(ls@.subrange(0, i + 1)) =~= seq_views(
                ls@.subrange(0, i as int),
            ).push(ls@[i as int]@));
            lemma_join_lines_push(seq_views(ls@.subrange(0, i as int)), ls@[i as int]@);
        }
        i = i + 1;
    }
    proof {
        assert(ls@.subrange(0, ls@.len() as int) =~= ls@);
    }
    out
}

/// Splitting a joined text recovers the lines, as long as no line holds a
/// newline of its own.
pub proof fn lemma_lines_of_join(ls: Seq<Seq<char>>)
    requires
        forall|i: int| 0 <= i < ls.len() ==> find_char(#[trigger] ls[i], '\n') == -1,
    ensures
        lines_of(join_lines_of(ls)) == ls,
    decreases ls.len(),
{
    if ls.len() == 0 {
        assert(lines_of(join_lines_of(ls)) =~= ls);
    } else {
        let s = join_lines_of(ls);
        let head = ls[0];
        let rest = join_lines_of(ls.drop_first());
        assert(s == head + seq!['\n'] + rest);
        lemma_find_char_no_hit(head, '\n');
        assert(forall|j: int| 0 <= j < head.len() ==> s[j] != '\n');
        assert(s[head.len() as int] == '\n');
        lemma_find_char_at(s, '\n', head.len() as int);
        assert(s.subrange(0, head.len() as int) =~= head);
        assert(s.subrange(head.len() as int + 1, s.len() as int) =~= rest);
        lemma_lines_of_join(ls.drop_first());
        assert(lines_of(s) =~= ls);
    }
}

/// A sequence in which `find_char` hits holds the character there, and
/// nowhere earlier.
pub proof fn lemma_find_char_hit(s: Seq<char>, c: char)
    requires
        find_char(s, c) >= 0,
    ensures
        0 <= find_char(s, c) < s.len(),
        s[find_char(s, c)] == c,
        forall|j: int| 0 <= j < find_char(s, c) ==> s[j] != c,
    decreases s.len(),
{
    if s.len() > 0 && s[0] != c {
        lemma_find_char_hit(s.drop_first(), c);
        assert(forall|j: int| 1 <= j < s.len() ==> s[j] == s.drop_first()[j - 1]);
    }
}

/// A sequence in which `find_char` misses holds no occurrence at all.
pub proof fn lemma_find_char_no_hit(s: Seq<char>, c: char)
    requires
        find_char(s, c) == -1,
    ensures
        forall|j: int| 0 <= j < s.len() ==> s[j] != c,
    decreases s.len(),
{
    if s.len() > 0 {
        assert(s[0] != c);
        lemma_find_char_no_hit(s.drop_first(), c);
        assert(forall|j: int| 1 <= j < s.len() ==> s[j] == s.drop_first()[j - 1]);
    }
}

} // verus!
