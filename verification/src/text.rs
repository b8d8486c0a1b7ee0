//! Text primitives over `str` and `String`, each stated on the characters.

use vstd::prelude::*;

use crate::seqs;

verus! {

/// `String::push` of std: appends one character at the end.
pub assume_specification[ String::push ](s: &mut String, c: char)
    ensures
        final(s)@ == old(s)@.push(c),
;

/// The texts of a list of strings.
pub open spec fn views(list: Seq<String>) -> Seq<Seq<char>> {
    list.map_values(|s: String| s@)
}

/// The text of an optional string.
pub open spec fn opt_view(o: Option<String>) -> Option<Seq<char>> {
    match o {
        Some(s) => Some(s@),
        None => None,
    }
}

/// The text of an optional string slice.
pub open spec fn opt_str_view(o: Option<&str>) -> Option<Seq<char>> {
    match o {
        Some(s) => Some(s@),
        None => None,
    }
}

/// The texts of a list of string slices.
pub open spec fn str_views(list: Seq<&str>) -> Seq<Seq<char>> {
    list.map_values(|s: &str| s@)
}

/// Whether two texts are the same.
pub fn same(a: &str, b: &str) -> (r: bool)
    ensures
        r == (a@ == b@),
{
    a.to_string() == b.to_string()
}

/// Whether two optional texts are the same.
pub fn same_opt(a: &Option<String>, b: Option<&str>) -> (r: bool)
    ensures
        r == (opt_view(*a) == opt_str_view(b)),
{
    match (a, b) {
        (Some(x), Some(y)) => same(x.as_str(), y),
        (None, None) => true,
        _ => false,
    }
}

/// A copy of an optional string.
pub fn copy_opt(a: &Option<String>) -> (r: Option<String>)
    ensures
        r == *a,
{
    match a {
        Some(s) => Some(s.clone()),
        None => None,
    }
}

/// A copy of a list of strings.
pub fn copy_list(list: &Vec<String>) -> (r: Vec<String>)
    ensures
        r@ == list@,
{
    let mut out: Vec<String> = Vec::new();
    let mut i: usize = 0;
    while i < list.len()
        invariant
            i <= list.len(),
            out@ == list@.take(i as int),
        decreases list.len() - i,
    {
        out.push(list[i].clone());
        i = i + 1;
    }
    out
}

/// The texts of a list, each owned.
pub fn own_all(list: &[&str]) -> (r: Vec<String>)
    ensures
        views(r@) == str_views(list@),
{
    let mut out: Vec<String> = Vec::new();
    let mut i: usize = 0;
    while i < list.len()
        invariant
            i <= list.len(),
            views(out@) == str_views(list@).take(i as int),
        decreases list.len() - i,
    {
        let ghost before = views(out@);
        out.push(list[i].to_string());
        assert(views(out@) =~= before.push(list@[i as int]@));
        i = i + 1;
    }
    out
}

/// The texts of a list with `sep` between them.
pub open spec fn joined(list: Seq<Seq<char>>, sep: Seq<char>) -> Seq<char>
    decreases list.len(),
{
    if list.len() == 0 {
        Seq::empty()
    } else if list.len() == 1 {
        list[0]
    } else {
        joined(list.drop_last(), sep) + sep + list.last()
    }
}

/// The texts of a list with `sep` between them.
pub fn join(list: &[String], sep: &str) -> (r: String)
    ensures
        r@ == joined(views(list@), sep@),
{
    let mut out = String::new();
    let mut i: usize = 0;
    let ghost all = views(list@);
    while i < list.len()
        invariant
            i <= list.len(),
            all == views(list@),
            out@ == joined(all.take(i as int), sep@),
        decreases list.len() - i,
    {
        assert(all.take(i + 1).drop_last() =~= all.take(i as int));
        if i > 0 {
            out.append(sep);
        }
        out.append(list[i].as_str());
        assert(out@ =~= joined(all.take(i + 1), sep@));
        i = i + 1;
    }
    assert(all.take(list.len() as int) =~= all);
    out
}

/// Whether the list holds this text.
pub fn list_contains(list: &Vec<String>, text: &str) -> (r: bool)
    ensures
        r == views(list@).contains(text@),
{
    let mut i: usize = 0;
    while i < list.len()
        invariant
            i <= list.len(),
            forall|j: int| 0 <= j < i ==> list@[j]@ != text@,
        decreases list.len() - i,
    {
        if same(list[i].as_str(), text) {
            assert(views(list@)[i as int] == text@);
            return true;
        }
        i = i + 1;
    }
    false
}

/// Two texts joined.
pub fn cat(a: &str, b: &str) -> (r: String)
    ensures
        r@ == a@ + b@,
{
    let mut s = a.to_string();
    s.append(b);
    s
}

/// Three texts joined.
pub fn cat3(a: &str, b: &str, c: &str) -> (r: String)
    ensures
        r@ == a@ + b@ + c@,
{
    let mut s = a.to_string();
    s.append(b);
    s.append(c);
    s
}

/// The decimal digit of a number below ten.
pub open spec fn digit(d: nat) -> char {
    (48 + d) as char
}

/// The decimal numeral of a number, without leading zeros.
pub open spec fn decimal(n: nat) -> Seq<char>
    decreases n,
{
    if n < 10 {
        seq![digit(n)]
    } else {
        decimal(n / 10).push(digit(n % 10))
    }
}

/// The decimal numeral of `n`.
pub fn to_decimal(n: u64) -> (r: String)
    ensures
        r@ == decimal(n as nat),
    decreases n,
{
    let last = (48u8 + (n % 10) as u8) as char;
    if n < 10 {
        let mut s = String::new();
        s.push(last);
        s
    } else {
        let mut s = to_decimal(n / 10);
        s.push(last);
        s
    }
}

/// `n` blanks.
pub open spec fn blanks(n: nat) -> Seq<char> {
    Seq::new(n, |i: int| ' ')
}

/// `n` blanks.
pub fn make_blanks(n: usize) -> (r: String)
    ensures
        r@ == blanks(n as nat),
{
    let mut s = String::new();
    let mut i: usize = 0;
    while i < n
        invariant
            i <= n,
            s@ == blanks(i as nat),
        decreases n - i,
    {
        s.push(' ');
        i = i + 1;
    }
    s
}

/// The characters of a text.
pub fn chars_of(s: &str) -> (r: Vec<char>)
    ensures
        r@ == s@,
{
    let mut out: Vec<char> = Vec::new();
    for c in it: s.chars()
        invariant
            out@ == s@.take(it.index() as int),
            it.seq() == s@,
    {
        out.push(c);
    }
    out
}

/// The text made of a run of characters.
pub fn text_of(chars: &Vec<char>, from: usize, to: usize) -> (r: String)
    requires
        from <= to <= chars.len(),
    ensures
        r@ == chars@.subrange(from as int, to as int),
{
    let mut s = String::new();
    let mut i: usize = from;
    while i < to
        invariant
            from <= i <= to <= chars.len(),
            s@ == chars@.subrange(from as int, i as int),
        decreases to - i,
    {
        s.push(chars[i]);
        i = i + 1;
    }
    s
}

/// Unicode white space.
pub open spec fn is_space(c: char) -> bool {
    ||| 0x09 <= c as int <= 0x0D
    ||| c as int == 0x20
    ||| c as int == 0x85
    ||| c as int == 0xA0
    ||| c as int == 0x1680
    ||| 0x2000 <= c as int <= 0x200A
    ||| c as int == 0x2028
    ||| c as int == 0x2029
    ||| c as int == 0x202F
    ||| c as int == 0x205F
    ||| c as int == 0x3000
}

/// Whether `c` is Unicode white space.
pub fn is_whitespace(c: char) -> (r: bool)
    ensures
        r == is_space(c),
{
    let n: u32 = c as u32;
    (0x09 <= n && n <= 0x0D) || n == 0x20 || n == 0x85 || n == 0xA0 || n == 0x1680 || (0x2000 <= n
        && n <= 0x200A) || n == 0x2028 || n == 0x2029 || n == 0x202F || n == 0x205F || n == 0x3000
}

/// `s` without the white space at its start.
pub open spec fn trimmed_start(s: Seq<char>) -> Seq<char>
    decreases s.len(),
{
    if s.len() > 0 && is_space(s[0]) {
        trimmed_start(s.skip(1))
    } else {
        s
    }
}

/// `s` without the white space at its end.
pub open spec fn trimmed_end(s: Seq<char>) -> Seq<char>
    decreases s.len(),
{
    if s.len() > 0 && is_space(s.last()) {
        trimmed_end(s.drop_last())
    } else {
        s
    }
}

/// `s` without the white space at either end.
pub open spec fn trimmed(s: Seq<char>) -> Seq<char> {
    trimmed_end(trimmed_start(s))
}

/// `s` without the white space at either end.
pub fn trim(s: &str) -> (r: String)
    ensures
        r@ == trimmed(s@),
{
    let chars = chars_of(s);
    let mut a: usize = 0;
    assert(chars@.skip(0) =~= chars@);
    while a < chars.len() && is_whitespace(chars[a])
        invariant
            a <= chars.len(),
            trimmed_start(chars@) == trimmed_start(chars@.skip(a as int)),
        decreases chars.len() - a,
    {
        assert(chars@.skip(a as int).skip(1) =~= chars@.skip(a + 1));
        a = a + 1;
    }
    let ghost t = chars@.skip(a as int);
    assert(trimmed_start(chars@) == t);
    let mut b: usize = chars.len();
    assert(chars@.subrange(a as int, b as int) =~= t);
    while a < b && is_whitespace(chars[b - 1])
        invariant
            a <= b <= chars.len(),
            trimmed_end(t) == trimmed_end(chars@.subrange(a as int, b as int)),
        decreases b,
    {
        assert(chars@.subrange(a as int, b as int).drop_last() =~= chars@.subrange(
            a as int,
            b - 1,
        ));
        b = b - 1;
    }
    text_of(&chars, a, b)
}

/// What follows `prefix` in `s`, where `s` starts with it.
pub open spec fn after_prefix(s: Seq<char>, prefix: Seq<char>) -> Option<Seq<char>> {
    if prefix.is_prefix_of(s) {
        Some(s.skip(prefix.len() as int))
    } else {
        None
    }
}

/// What follows `prefix` in `s`, where `s` starts with it.
pub fn strip_prefix(s: &str, prefix: &str) -> (r: Option<String>)
    ensures
        opt_view(r) == after_prefix(s@, prefix@),
{
    let chars = chars_of(s);
    let p = chars_of(prefix);
    if p.len() > chars.len() {
        return None;
    }
    let mut i: usize = 0;
    while i < p.len()
        invariant
            i <= p.len() <= chars.len(),
            chars@ == s@,
            p@ == prefix@,
            chars@.take(i as int) == p@.take(i as int),
        decreases p.len() - i,
    {
        if chars[i] != p[i] {
            assert(s@.take(prefix@.len() as int)[i as int] != prefix@[i as int]);
            return None;
        }
        assert(chars@.take(i + 1) =~= chars@.take(i as int).push(chars@[i as int]));
        assert(p@.take(i + 1) =~= p@.take(i as int).push(p@[i as int]));
        i = i + 1;
    }
    let rest = text_of(&chars, p.len(), chars.len());
    assert(p@.take(p.len() as int) =~= p@);
    assert(rest@ =~= s@.skip(prefix@.len() as int));
    Some(rest)
}

/// Whether `s` starts with `prefix`.
pub fn starts_with(s: &str, prefix: &str) -> (r: bool)
    ensures
        r == prefix@.is_prefix_of(s@),
{
    strip_prefix(s, prefix).is_some()
}

/// `s` with every trailing occurrence of `suffix` removed.
pub open spec fn without_suffixes(s: Seq<char>, suffix: Seq<char>) -> Seq<char>
    decreases s.len(),
{
    if suffix.len() > 0 && suffix.is_suffix_of(s) {
        without_suffixes(s.take(s.len() - suffix.len()), suffix)
    } else {
        s
    }
}

/// Whether the characters of `p` stand in `chars` just before `end`.
fn ends_at(chars: &Vec<char>, end: usize, p: &Vec<char>) -> (r: bool)
    requires
        end <= chars.len(),
    ensures
        r == p@.is_suffix_of(chars@.take(end as int)),
{
    if p.len() > end {
        return false;
    }
    let from: usize = end - p.len();
    let ghost t = chars@.take(end as int);
    let mut i: usize = 0;
    while i < p.len()
        invariant
            i <= p.len() <= end <= chars.len(),
            from == end - p.len(),
            t == chars@.take(end as int),
            forall|j: int| 0 <= j < i ==> t[from + j] == p@[j],
        decreases p.len() - i,
    {
        if chars[from + i] != p[i] {
            assert(t.subrange(from as int, end as int)[i as int] != p@[i as int]);
            return false;
        }
        i = i + 1;
    }
    assert(t.subrange(from as int, end as int) =~= p@);
    true
}

/// Whether `s` ends with `suffix`.
pub fn ends_with(s: &str, suffix: &str) -> (r: bool)
    ensures
        r == suffix@.is_suffix_of(s@),
{
    let chars = chars_of(s);
    let p = chars_of(suffix);
    assert(chars@.take(chars.len() as int) =~= s@);
    ends_at(&chars, chars.len(), &p)
}

/// How many bytes a text takes.
pub open spec fn width(s: Seq<char>) -> usize {
    vstd::utf8::encode_utf8(s).len() as usize
}

/// The blanks that bring a text to a width.
pub open spec fn padding(s: Seq<char>, to: usize) -> Seq<char> {
    blanks(
        if to > width(s) {
            (to - width(s)) as nat
        } else {
            0
        },
    )
}

/// The blanks that bring a text to a width.
pub fn pad(s: &str, to: usize) -> (r: String)
    ensures
        r@ == padding(s@, to),
{
    let n: usize = s.len();
    if to > n {
        make_blanks(to - n)
    } else {
        make_blanks(0)
    }
}

/// `s` with every trailing occurrence of `suffix` removed.
pub fn trim_end_matches(s: &str, suffix: &str) -> (r: String)
    requires
        suffix@.len() > 0,
    ensures
        r@ == without_suffixes(s@, suffix@),
{
    let chars = chars_of(s);
    let p = chars_of(suffix);
    let mut end: usize = chars.len();
    assert(chars@.take(end as int) =~= s@);
    while ends_at(&chars, end, &p)
        invariant
            end <= chars.len(),
            p@ == suffix@,
            p.len() > 0,
            without_suffixes(s@, suffix@) == without_suffixes(chars@.take(end as int), suffix@),
        decreases end,
    {
        assert(chars@.take(end as int).take(end - p.len()) =~= chars@.take(end - p.len()));
        end = end - p.len();
    }
    let r = text_of(&chars, 0, end);
    assert(r@ =~= chars@.take(end as int));
    r
}

/// The pieces of `s` between the occurrences of `c`.
pub open spec fn pieces(s: Seq<char>, c: char) -> Seq<Seq<char>>
    decreases s.len(),
{
    if s.len() == 0 {
        seq![Seq::<char>::empty()]
    } else {
        let before = pieces(s.drop_last(), c);
        if s.last() == c {
            before.push(Seq::<char>::empty())
        } else {
            before.drop_last().push(before.last().push(s.last()))
        }
    }
}

/// There is always at least one piece.
pub proof fn lemma_pieces_nonempty(s: Seq<char>, c: char)
    ensures
        pieces(s, c).len() > 0,
    decreases s.len(),
{
    if s.len() > 0 {
        lemma_pieces_nonempty(s.drop_last(), c);
    }
}

/// The pieces of `s` between the occurrences of `c`.
pub fn split(s: &str, c: char) -> (r: Vec<String>)
    ensures
        views(r@) == pieces(s@, c),
        r@.len() > 0,
{
    let chars = chars_of(s);
    let mut out: Vec<String> = Vec::new();
    let mut cur = String::new();
    let mut i: usize = 0;
    assert(chars@.take(0) =~= Seq::<char>::empty());
    assert(views(out@).push(cur@) =~= pieces(chars@.take(0), c));
    while i < chars.len()
        invariant
            i <= chars.len(),
            views(out@).push(cur@) == pieces(chars@.take(i as int), c),
        decreases chars.len() - i,
    {
        let ghost before = pieces(chars@.take(i as int), c);
        let ghost done = views(out@);
        assert(chars@.take(i + 1).drop_last() =~= chars@.take(i as int));
        if chars[i] == c {
            let ghost piece = cur@;
            out.push(cur);
            cur = String::new();
            assert(views(out@) =~= done.push(piece));
        } else {
            assert(before.drop_last() =~= done);
            cur.push(chars[i]);
        }
        i = i + 1;
    }
    let ghost done = views(out@);
    let ghost piece = cur@;
    out.push(cur);
    assert(views(out@) =~= done.push(piece));
    assert(chars@.take(chars.len() as int) =~= s@);
    out
}

/// Where `c` first stands in `s`; the length of `s` where it does not.
pub open spec fn first_of(s: Seq<char>, c: char) -> nat
    decreases s.len(),
{
    if s.len() == 0 || s[0] == c {
        0
    } else {
        1 + first_of(s.skip(1), c)
    }
}

proof fn lemma_first_of(s: Seq<char>, c: char, i: int)
    requires
        0 <= i <= s.len(),
        forall|j: int| 0 <= j < i ==> s[j] != c,
        i == s.len() || s[i] == c,
    ensures
        first_of(s, c) == i,
    decreases i,
{
    if i > 0 {
        assert forall|j: int| 0 <= j < i - 1 implies s.skip(1)[j] != c by {
            assert(s.skip(1)[j] == s[j + 1]);
        }
        lemma_first_of(s.skip(1), c, i - 1);
    }
}

/// What stands before and after the first `c` in `s`.
pub open spec fn halves(s: Seq<char>, c: char) -> Option<(Seq<char>, Seq<char>)> {
    let k = first_of(s, c) as int;
    if k < s.len() {
        Some((s.take(k), s.skip(k + 1)))
    } else {
        None
    }
}

/// What stands before and after the first `c` in `s`.
pub fn split_once(s: &str, c: char) -> (r: Option<(String, String)>)
    ensures
        match r {
            Some((a, b)) => halves(s@, c) == Some((a@, b@)),
            None => halves(s@, c) is None,
        },
{
    let chars = chars_of(s);
    let mut i: usize = 0;
    while i < chars.len()
        invariant
            i <= chars.len(),
            chars@ == s@,
            forall|j: int| 0 <= j < i ==> chars@[j] != c,
        decreases chars.len() - i,
    {
        if chars[i] == c {
            proof {
                lemma_first_of(s@, c, i as int);
            }
            let a = text_of(&chars, 0, i);
            let b = text_of(&chars, i + 1, chars.len());
            assert(a@ =~= s@.take(i as int));
            assert(b@ =~= s@.skip(i + 1));
            return Some((a, b));
        }
        i = i + 1;
    }
    proof {
        lemma_first_of(s@, c, i as int);
    }
    None
}

/// A line without its closing carriage return.
pub open spec fn without_cr(line: Seq<char>) -> Seq<char> {
    if line.len() > 0 && line.last() == '\r' {
        line.drop_last()
    } else {
        line
    }
}

/// The lines of `s`: what stands before each line feed, without a carriage
/// return just before it, and what stands after the last one where that is
/// not empty.
pub open spec fn lines_of(s: Seq<char>) -> Seq<Seq<char>> {
    let p = pieces(s, '\n');
    let ended = p.drop_last().map_values(|l: Seq<char>| without_cr(l));
    if p.last().len() == 0 {
        ended
    } else {
        ended.push(p.last())
    }
}

/// The lines of `s`.
pub fn lines(s: &str) -> (r: Vec<String>)
    ensures
        views(r@) == lines_of(s@),
{
    let parts = split(s, '\n');
    let ghost p = pieces(s@, '\n');
    let ghost ended = p.drop_last().map_values(|l: Seq<char>| without_cr(l));
    let mut out: Vec<String> = Vec::new();
    let mut i: usize = 0;
    let last: usize = parts.len() - 1;
    while i < last
        invariant
            i <= last,
            last == parts.len() - 1,
            p == views(parts@),
            ended == p.drop_last().map_values(|l: Seq<char>| without_cr(l)),
            views(out@) == ended.take(i as int),
        decreases last - i,
    {
        let chars = chars_of(parts[i].as_str());
        let ghost before = views(out@);
        let n: usize = chars.len();
        let line = if n > 0 && chars[n - 1] == '\r' {
            text_of(&chars, 0, n - 1)
        } else {
            text_of(&chars, 0, n)
        };
        assert(p[i as int] == parts@[i as int]@);
        assert(line@ =~= without_cr(p[i as int]));
        assert(ended[i as int] == without_cr(p[i as int]));
        out.push(line);
        assert(views(out@) =~= before.push(ended[i as int]));
        assert(ended.take(i + 1) =~= ended.take(i as int).push(ended[i as int]));
        i = i + 1;
    }
    assert(ended.take(last as int) =~= ended);
    assert(p.last() == parts@[last as int]@);
    if !parts[last].as_str().is_empty() {
        let ghost before = views(out@);
        out.push(parts[last].clone());
        assert(views(out@) =~= before.push(p.last()));
    }
    out
}

/// `s` with every character of `from` put to `to`.
pub open spec fn replaced(s: Seq<char>, from: Seq<char>, to: char) -> Seq<char> {
    s.map_values(|c: char| if from.contains(c) { to } else { c })
}

/// `s` with every occurrence of `a` and of `b` put to `to`.
pub fn replace_two(s: &str, a: char, b: char, to: char) -> (r: String)
    ensures
        r@ == replaced(s@, seq![a, b], to),
{
    let chars = chars_of(s);
    let mut out = String::new();
    let mut i: usize = 0;
    let ghost from = seq![a, b];
    assert(from[0] == a && from[1] == b);
    assert(forall|c: char| from.contains(c) <==> (c == a || c == b));
    while i < chars.len()
        invariant
            i <= chars.len(),
            chars@ == s@,
            from == seq![a, b],
            forall|c: char| from.contains(c) <==> (c == a || c == b),
            out@ == replaced(s@.take(i as int), from, to),
        decreases chars.len() - i,
    {
        let c = chars[i];
        assert(s@.take(i + 1) =~= s@.take(i as int).push(c));
        if c == a || c == b {
            out.push(to);
        } else {
            out.push(c);
        }
        assert(out@ =~= replaced(s@.take(i + 1), from, to));
        i = i + 1;
    }
    assert(s@.take(chars.len() as int) =~= s@);
    out
}

/// Whether `c` is a decimal digit.
pub open spec fn is_digit(c: char) -> bool {
    '0' <= c && c <= '9'
}

/// Whether every character is a decimal digit.
pub open spec fn all_digits(s: Seq<char>) -> bool {
    forall|i: int| 0 <= i < s.len() ==> is_digit(#[trigger] s[i])
}

/// The value of a run of decimal digits.
pub open spec fn value_of(s: Seq<char>) -> nat
    decreases s.len(),
{
    if s.len() == 0 {
        0
    } else {
        value_of(s.drop_last()) * 10 + (s.last() as nat - 48) as nat
    }
}

/// The number that a numeral stands for: decimal digits, after at most one
/// plus sign, whose value fits in 64 bits.
pub open spec fn number_of(s: Seq<char>) -> Option<u64> {
    let d = if s.len() > 0 && s[0] == '+' {
        s.skip(1)
    } else {
        s
    };
    if d.len() > 0 && all_digits(d) && value_of(d) <= u64::MAX {
        Some(value_of(d) as u64)
    } else {
        None
    }
}

proof fn lemma_value_grows(s: Seq<char>, i: int)
    requires
        0 <= i <= s.len(),
    ensures
        value_of(s.take(i)) <= value_of(s),
    decreases s.len() - i,
{
    if i < s.len() {
        lemma_value_grows(s, i + 1);
        assert(s.take(i + 1).drop_last() =~= s.take(i));
    } else {
        assert(s.take(i) =~= s);
    }
}

/// The number that `s` is a numeral of.
pub fn parse_number(s: &str) -> (r: Option<u64>)
    ensures
        r == number_of(s@),
{
    let chars = chars_of(s);
    let from: usize = if chars.len() > 0 && chars[0] == '+' {
        1
    } else {
        0
    };
    let ghost d = chars@.skip(from as int);
    assert(d == if s@.len() > 0 && s@[0] == '+' {
        s@.skip(1)
    } else {
        s@
    });
    if chars.len() == from {
        return None;
    }
    let mut value: u64 = 0;
    let mut i: usize = from;
    assert(d.take(0) =~= Seq::<char>::empty());
    while i < chars.len()
        invariant
            from <= i <= chars.len(),
            d == chars@.skip(from as int),
            d.len() > 0,
            number_of(s@) == (if all_digits(d) && value_of(d) <= u64::MAX {
                Some(value_of(d) as u64)
            } else {
                None
            }),
            value == value_of(d.take(i - from)),
            forall|j: int| 0 <= j < i - from ==> is_digit(#[trigger] d[j]),
        decreases chars.len() - i,
    {
        let c = chars[i];
        assert(d[i - from] == c);
        if c < '0' || c > '9' {
            assert(!all_digits(d));
            return None;
        }
        let digit: u64 = (c as u32 - 48) as u64;
        proof {
            lemma_value_grows(d, i - from + 1);
            assert(d.take(i - from + 1).drop_last() =~= d.take(i - from));
        }
        if value > (u64::MAX - digit) / 10 {
            return None;
        }
        value = value * 10 + digit;
        i = i + 1;
    }
    assert(d.take(d.len() as int) =~= d);
    Some(value)
}

/// The pieces of `s` between white space.
pub open spec fn blank_pieces(s: Seq<char>) -> Seq<Seq<char>>
    decreases s.len(),
{
    if s.len() == 0 {
        seq![Seq::<char>::empty()]
    } else {
        let before = blank_pieces(s.drop_last());
        if is_space(s.last()) {
            before.push(Seq::<char>::empty())
        } else {
            before.drop_last().push(before.last().push(s.last()))
        }
    }
}

/// A piece that holds anything.
pub open spec fn nonempty() -> spec_fn(Seq<char>) -> bool {
    |w: Seq<char>| w.len() > 0
}

/// The words of `s`: what stands between white space.
pub open spec fn words_of(s: Seq<char>) -> Seq<Seq<char>> {
    blank_pieces(s).filter(nonempty())
}

proof fn lemma_filter_push(s: Seq<Seq<char>>, w: Seq<char>)
    ensures
        s.push(w).filter(nonempty()) == (if w.len() > 0 {
            s.filter(nonempty()).push(w)
        } else {
            s.filter(nonempty())
        }),
{
    reveal(Seq::filter);
    assert(s.push(w).drop_last() =~= s);
}

/// The words of `s`: what stands between white space.
pub fn words(s: &str) -> (r: Vec<String>)
    ensures
        views(r@) == words_of(s@),
{
    let chars = chars_of(s);
    let ghost mut pieces: Seq<Seq<char>> = Seq::empty();
    let mut out: Vec<String> = Vec::new();
    let mut cur = String::new();
    let mut i: usize = 0;
    proof {
        reveal(Seq::filter);
        assert(chars@.take(0) =~= Seq::<char>::empty());
        assert(pieces.push(cur@) =~= blank_pieces(chars@.take(0)));
        assert(views(out@) =~= pieces.filter(nonempty()));
    }
    while i < chars.len()
        invariant
            i <= chars.len(),
            pieces.push(cur@) == blank_pieces(chars@.take(i as int)),
            views(out@) == pieces.filter(nonempty()),
        decreases chars.len() - i,
    {
        let ghost before = blank_pieces(chars@.take(i as int));
        let ghost done = views(out@);
        assert(chars@.take(i + 1).drop_last() =~= chars@.take(i as int));
        if is_whitespace(chars[i]) {
            let ghost piece = cur@;
            proof {
                lemma_filter_push(pieces, piece);
                pieces = pieces.push(piece);
            }
            if !cur.as_str().is_empty() {
                out.push(cur);
                assert(views(out@) =~= done.push(piece));
            }
            cur = String::new();
        } else {
            assert(before.drop_last() =~= pieces);
            cur.push(chars[i]);
        }
        i = i + 1;
    }
    proof {
        lemma_filter_push(pieces, cur@);
        assert(chars@.take(chars.len() as int) =~= s@);
    }
    if !cur.as_str().is_empty() {
        let ghost done = views(out@);
        let ghost piece = cur@;
        out.push(cur);
        assert(views(out@) =~= done.push(piece));
    }
    out
}

/// The upper-case form of a character, which can be several characters.
pub uninterp spec fn uppercase_of(c: char) -> Seq<char>;

/// `char::to_uppercase` of std: the upper-case mapping that Unicode gives the
/// character, written out.
#[verifier::external_body]
fn to_uppercase(c: char) -> (r: String)
    ensures
        r@ == uppercase_of(c),
{
    c.to_uppercase().to_string()
}

/// `s` with its first character in upper case.
pub open spec fn capitalised(s: Seq<char>) -> Seq<char> {
    if s.len() == 0 {
        s
    } else {
        uppercase_of(s[0]) + s.skip(1)
    }
}

/// `s` with its first character in upper case.
pub fn capitalise(s: &str) -> (r: String)
    ensures
        r@ == capitalised(s@),
{
    let chars = chars_of(s);
    if chars.len() == 0 {
        return String::new();
    }
    let rest = text_of(&chars, 1, chars.len());
    assert(rest@ =~= s@.skip(1));
    cat(to_uppercase(chars[0]).as_str(), rest.as_str())
}

/// A text that neither starts nor ends in white space is left as it is.
pub proof fn lemma_trimmed_id(s: Seq<char>)
    requires
        s.len() > 0,
        !is_space(s[0]),
        !is_space(s.last()),
    ensures
        trimmed(s) == s,
{
}

/// A suffix that is added is taken off again.
pub proof fn lemma_suffix_off(s: Seq<char>, suffix: Seq<char>)
    requires
        suffix.len() > 0,
    ensures
        without_suffixes(s + suffix, suffix) == without_suffixes(s, suffix),
{
    let t = s + suffix;
    assert(t.subrange(t.len() - suffix.len(), t.len() as int) =~= suffix);
    assert(t.take(t.len() - suffix.len()) =~= s);
}

/// Suffixes are taken off behind a head that ends in a character which the
/// suffix does not hold.
pub proof fn lemma_suffixes_behind(head: Seq<char>, s: Seq<char>, suffix: Seq<char>)
    requires
        head.len() > 0,
        suffix.len() > 0,
        !suffix.contains(head.last()),
    ensures
        without_suffixes(head + s, suffix) == head + without_suffixes(s, suffix),
    decreases s.len(),
{
    let t = head + s;
    if suffix.is_suffix_of(t) {
        let at = t.len() - suffix.len();
        assert(t.subrange(at, t.len() as int) =~= suffix);
        if s.len() < suffix.len() {
            let k = head.len() - 1 - at;
            assert(suffix[k] == t.subrange(at, t.len() as int)[k]);
            assert(t[head.len() - 1] == head.last());
            assert(suffix.contains(head.last()));
        }
        let from = s.len() - suffix.len();
        assert(s.subrange(from, s.len() as int) =~= t.subrange(at, t.len() as int));
        assert(suffix.is_suffix_of(s));
        assert(t.take(at) =~= head + s.take(from));
        lemma_suffixes_behind(head, s.take(from), suffix);
    } else if suffix.is_suffix_of(s) {
        let from = s.len() - suffix.len();
        assert(t.subrange(head.len() + from, t.len() as int) =~= s.subrange(
            from,
            s.len() as int,
        ));
        assert(suffix.is_suffix_of(t));
    }
}

/// The first `n` characters, or all of them where there are fewer.
pub open spec fn start_of(s: Seq<char>, n: int) -> Seq<char> {
    if s.len() <= n {
        s
    } else {
        s.take(n)
    }
}

/// The first `n` characters, or all of them where there are fewer.
pub fn shorten(s: &str, n: usize) -> (r: String)
    ensures
        r@ == start_of(s@, n as int),
{
    let chars = chars_of(s);
    if chars.len() <= n {
        s.to_string()
    } else {
        let t = text_of(&chars, 0, n);
        assert(t@ =~= s@.take(n as int));
        t
    }
}

/// Whether `part` stands in `s` at `i`.
pub open spec fn part_at(s: Seq<char>, part: Seq<char>, i: int) -> bool {
    0 <= i && i + part.len() <= s.len() && s.subrange(i, i + part.len()) == part
}

/// Whether `part` stands somewhere in `s`.
#[verifier::opaque]
pub open spec fn has_part(s: Seq<char>, part: Seq<char>) -> bool {
    exists|i: int| #[trigger] part_at(s, part, i)
}

/// A text holds what it is put together from, and what that holds.
pub proof fn lemma_part_within(a: Seq<char>, mid: Seq<char>, b: Seq<char>, part: Seq<char>)
    requires
        has_part(mid, part),
    ensures
        has_part(a + mid + b, part),
{
    reveal(has_part);
    let i = choose|i: int| #[trigger] part_at(mid, part, i);
    let s = a + mid + b;
    assert(s.subrange(a.len() + i, a.len() + i + part.len()) =~= mid.subrange(i, i + part.len()));
    assert(part_at(s, part, a.len() + i));
}

/// A text holds itself.
pub proof fn lemma_part_whole(s: Seq<char>)
    ensures
        has_part(s, s),
{
    reveal(has_part);
    assert(s.subrange(0, s.len() as int) =~= s);
    assert(part_at(s, s, 0));
}

/// What the first of two texts holds, both together hold.
pub proof fn lemma_part_left(a: Seq<char>, b: Seq<char>, part: Seq<char>)
    requires
        has_part(a, part),
    ensures
        has_part(a + b, part),
{
    lemma_part_within(Seq::empty(), a, b, part);
    assert(Seq::<char>::empty() + a + b =~= a + b);
}

/// What the second of two texts holds, both together hold.
pub proof fn lemma_part_right(a: Seq<char>, b: Seq<char>, part: Seq<char>)
    requires
        has_part(b, part),
    ensures
        has_part(a + b, part),
{
    lemma_part_within(a, b, Seq::empty(), part);
    assert(a + b + Seq::<char>::empty() =~= a + b);
}

/// A row holds what its marker, its name and its last column hold.
pub proof fn lemma_row_parts(
    a: Seq<char>,
    marker: Seq<char>,
    c: Seq<char>,
    name: Seq<char>,
    e: Seq<char>,
    f: Seq<char>,
    last: Seq<char>,
)
    ensures
        forall|part: Seq<char>| #[trigger]
            has_part(marker, part) ==> has_part(a + marker + c + name + e + f + last, part),
        forall|part: Seq<char>| #[trigger]
            has_part(name, part) ==> has_part(a + marker + c + name + e + f + last, part),
        forall|part: Seq<char>| #[trigger]
            has_part(last, part) ==> has_part(a + marker + c + name + e + f + last, part),
{
    assert forall|part: Seq<char>| #[trigger] has_part(marker, part) implies has_part(
        a + marker + c + name + e + f + last,
        part,
    ) by {
        lemma_part_right(a, marker, part);
        lemma_part_left(a + marker, c, part);
        lemma_part_left(a + marker + c, name, part);
        lemma_part_left(a + marker + c + name, e, part);
        lemma_part_left(a + marker + c + name + e, f, part);
        lemma_part_left(a + marker + c + name + e + f, last, part);
    }
    assert forall|part: Seq<char>| #[trigger] has_part(name, part) implies has_part(
        a + marker + c + name + e + f + last,
        part,
    ) by {
        lemma_part_right(a + marker + c, name, part);
        lemma_part_left(a + marker + c + name, e, part);
        lemma_part_left(a + marker + c + name + e, f, part);
        lemma_part_left(a + marker + c + name + e + f, last, part);
    }
    assert forall|part: Seq<char>| #[trigger] has_part(last, part) implies has_part(
        a + marker + c + name + e + f + last,
        part,
    ) by {
        lemma_part_right(a + marker + c + name + e + f, last, part);
    }
}

proof fn lemma_decimal_value(n: nat)
    ensures
        decimal(n).len() > 0,
        all_digits(decimal(n)),
        value_of(decimal(n)) == n,
    decreases n,
{
    let d = decimal(n);
    if n >= 10 {
        lemma_decimal_value(n / 10);
        let rest = decimal(n / 10);
        assert(d.drop_last() =~= rest);
        assert(d.last() == digit(n % 10));
        assert forall|i: int| 0 <= i < d.len() implies is_digit(#[trigger] d[i]) by {
            if i < rest.len() {
                assert(d[i] == rest[i]);
            }
        }
    } else {
        assert(d.drop_last() =~= Seq::<char>::empty());
        assert(d.last() == digit(n));
        assert(value_of(d.drop_last()) == 0);
    }
}

/// A numeral is read as the number that it was written for, with or without a
/// plus sign before it.
pub proof fn law_numerals_read_back(n: u64)
    ensures
        number_of(decimal(n as nat)) == Some(n),
        number_of(seq!['+'] + decimal(n as nat)) == Some(n),
{
    lemma_decimal_value(n as nat);
    let d = decimal(n as nat);
    assert(is_digit(d[0]));
    assert((seq!['+'] + d).skip(1) =~= d);
}

/// The pieces of a text, with the separator between them again, are the text, and
/// none of them holds the separator.
pub proof fn law_pieces_join_back(s: Seq<char>, c: char)
    ensures
        joined(pieces(s, c), seq![c]) == s,
        forall|i: int| 0 <= i < pieces(s, c).len() ==> !(#[trigger] pieces(s, c)[i]).contains(c),
    decreases s.len(),
{
    let sep = seq![c];
    let p = pieces(s, c);
    if s.len() > 0 {
        let rest = s.drop_last();
        let before = pieces(rest, c);
        law_pieces_join_back(rest, c);
        lemma_pieces_nonempty(rest, c);
        if s.last() == c {
            assert(p.drop_last() =~= before);
            assert(joined(p, sep) =~= joined(before, sep) + sep);
            assert(joined(p, sep) =~= s);
        } else {
            assert(p.drop_last() =~= before.drop_last());
            assert(p.last() =~= before.last().push(s.last()));
            assert(joined(p, sep) =~= joined(before, sep).push(s.last()));
            assert(joined(p, sep) =~= s);
            assert(!before[before.len() - 1].contains(c));
            assert(!p.last().contains(c)) by {
                if p.last().contains(c) {
                    let k = choose|k: int| 0 <= k < p.last().len() && p.last()[k] == c;
                    assert(before.last()[k] == c);
                }
            }
        }
        assert forall|i: int| 0 <= i < p.len() implies !(#[trigger] p[i]).contains(c) by {
            if i < p.len() - 1 {
                assert(p[i] == before[i]);
            }
        }
    }
}

/// The pieces of two texts with a separator between them are those of the one and
/// then those of the other.
pub proof fn law_pieces_of_both(a: Seq<char>, b: Seq<char>, c: char)
    ensures
        pieces(a + seq![c] + b, c) == pieces(a, c) + pieces(b, c),
    decreases b.len(),
{
    let s = a + seq![c] + b;
    lemma_pieces_nonempty(b, c);
    if b.len() == 0 {
        assert(s.drop_last() =~= a);
        assert(s.last() == c);
        assert(pieces(s, c) =~= pieces(a, c) + pieces(b, c));
    } else {
        let rest = b.drop_last();
        law_pieces_of_both(a, rest, c);
        lemma_pieces_nonempty(rest, c);
        assert(s.drop_last() =~= a + seq![c] + rest);
        assert(s.last() == b.last());
        assert(pieces(s, c) =~= pieces(a, c) + pieces(b, c));
    }
}

/// Trimming takes white space off either end, and all of it.
pub proof fn law_trimmed_has_no_space_outside(s: Seq<char>) -> (r: (nat, nat))
    ensures
        r.0 + trimmed(s).len() + r.1 == s.len(),
        trimmed(s) == s.subrange(r.0 as int, s.len() - r.1),
        forall|i: int| 0 <= i < r.0 ==> is_space(#[trigger] s[i]),
        forall|i: int| s.len() - r.1 <= i < s.len() ==> is_space(#[trigger] s[i]),
        trimmed(s).len() > 0 ==> !is_space(trimmed(s)[0]) && !is_space(trimmed(s).last()),
{
    let a = lemma_trimmed_start(s);
    let t = trimmed_start(s);
    let b = lemma_trimmed_end(t);
    assert(trimmed(s) =~= s.subrange(a as int, s.len() - b));
    assert forall|i: int| s.len() - b <= i < s.len() implies is_space(#[trigger] s[i]) by {
        assert(s[i] == t[i - a]);
    }
    if trimmed(s).len() > 0 {
        assert(trimmed(s)[0] == t[0]);
    }
    (a, b)
}

proof fn lemma_trimmed_start(s: Seq<char>) -> (a: nat)
    ensures
        a <= s.len(),
        trimmed_start(s) == s.skip(a as int),
        forall|i: int| 0 <= i < a ==> is_space(#[trigger] s[i]),
        a < s.len() ==> !is_space(s[a as int]),
    decreases s.len(),
{
    if s.len() > 0 && is_space(s[0]) {
        let t = s.skip(1);
        let b = lemma_trimmed_start(t);
        assert(t.skip(b as int) =~= s.skip((b + 1) as int));
        assert forall|i: int| 0 <= i < b + 1 implies is_space(#[trigger] s[i]) by {
            if i > 0 {
                assert(s[i] == t[i - 1]);
            }
        }
        b + 1
    } else {
        assert(s.skip(0) =~= s);
        0
    }
}

proof fn lemma_trimmed_end(s: Seq<char>) -> (b: nat)
    ensures
        b <= s.len(),
        trimmed_end(s) == s.take(s.len() - b),
        forall|i: int| s.len() - b <= i < s.len() ==> is_space(#[trigger] s[i]),
        b < s.len() ==> !is_space(s[s.len() - b - 1]),
    decreases s.len(),
{
    if s.len() > 0 && is_space(s.last()) {
        let t = s.drop_last();
        let b = lemma_trimmed_end(t);
        assert(t.take(t.len() - b) =~= s.take(s.len() - b - 1));
        assert forall|i: int| s.len() - b - 1 <= i < s.len() implies is_space(#[trigger] s[i]) by {
            if i < t.len() {
                assert(s[i] == t[i]);
            }
        }
        b + 1
    } else {
        assert(s.take(s.len() as int) =~= s);
        0
    }
}

/// A text is its two halves with the separator between them, and the first half
/// does not hold it; a text without halves does not either.
pub proof fn law_halves_join_back(s: Seq<char>, c: char)
    ensures
        match halves(s, c) {
            Some((a, b)) => s == a + seq![c] + b && !a.contains(c),
            None => !s.contains(c),
        },
{
    lemma_first_of_is(s, c);
    if let Some((a, b)) = halves(s, c) {
        assert(s =~= a + seq![c] + b);
    }
}

proof fn lemma_first_of_is(s: Seq<char>, c: char)
    ensures
        first_of(s, c) <= s.len(),
        forall|i: int| 0 <= i < first_of(s, c) ==> #[trigger] s[i] != c,
        first_of(s, c) < s.len() ==> s[first_of(s, c) as int] == c,
    decreases s.len(),
{
    if s.len() > 0 && s[0] != c {
        let t = s.skip(1);
        lemma_first_of_is(t, c);
        assert forall|i: int| 0 <= i < first_of(s, c) implies #[trigger] s[i] != c by {
            if i > 0 {
                assert(s[i] == t[i - 1]);
            }
        }
    }
}

/// What is left without a suffix does not end in it, and is how the text starts.
pub proof fn law_suffixes_are_off(s: Seq<char>, suffix: Seq<char>)
    requires
        suffix.len() > 0,
    ensures
        !suffix.is_suffix_of(without_suffixes(s, suffix)),
        without_suffixes(s, suffix).is_prefix_of(s),
    decreases s.len(),
{
    if suffix.is_suffix_of(s) {
        let t = s.take(s.len() - suffix.len());
        law_suffixes_are_off(t, suffix);
        let r = without_suffixes(t, suffix);
        assert(r =~= s.subrange(0, r.len() as int)) by {
            assert(r =~= t.subrange(0, r.len() as int));
        }
    } else {
        assert(s =~= s.subrange(0, s.len() as int));
    }
}

/// A text is shortened to at most so many characters, and to no fewer than it can
/// have.
pub proof fn law_shortened_is_the_start(s: Seq<char>, n: nat)
    ensures
        start_of(s, n as int).is_prefix_of(s),
        start_of(s, n as int).len() <= n,
        start_of(s, n as int).len() < n ==> start_of(s, n as int) == s,
{
    let t = start_of(s, n as int);
    assert(t =~= s.subrange(0, t.len() as int));
}

/// A name and its padding take at least the width, and exactly it where the name
/// is not wider.
pub proof fn law_padding_fills(s: Seq<char>, to: usize)
    ensures
        width(s) <= to ==> width(s) + padding(s, to).len() == to,
        width(s) > to ==> padding(s, to).len() == 0,
        forall|i: int| 0 <= i < padding(s, to).len() ==> #[trigger] padding(s, to)[i] == ' ',
{
}

/// No line holds a line feed.
pub proof fn law_lines_are_single(s: Seq<char>)
    ensures
        forall|i: int| 0 <= i < lines_of(s).len() ==> !(#[trigger] lines_of(s)[i]).contains('\n'),
{
    let p = pieces(s, '\n');
    law_pieces_join_back(s, '\n');
    lemma_pieces_nonempty(s, '\n');
    let all = lines_of(s);
    assert forall|i: int| 0 <= i < all.len() implies !(#[trigger] all[i]).contains('\n') by {
        assert(!p[i].contains('\n'));
        if i < p.len() - 1 {
            assert(all[i] == without_cr(p[i]));
            if all[i].contains('\n') {
                let k = choose|k: int| 0 <= k < all[i].len() && all[i][k] == '\n';
                assert(p[i][k] == '\n');
            }
        }
    }
}

/// A word holds no white space and is not empty.
pub proof fn law_words_are_solid(s: Seq<char>)
    ensures
        forall|i: int| 0 <= i < words_of(s).len() ==> (#[trigger] words_of(s)[i]).len() > 0,
        forall|i: int, k: int|
            0 <= i < words_of(s).len() && 0 <= k < words_of(s)[i].len() ==> !is_space(
                #[trigger] words_of(s)[i][k],
            ),
        forall|k: int|
            0 <= k < s.len() && !is_space(#[trigger] s[k]) ==> words_of(s).len() > 0,
{
    let all = blank_pieces(s);
    lemma_blank_pieces(s);
    seqs::lemma_filter_all(all, nonempty());
    let words = words_of(s);
    assert forall|i: int| 0 <= i < words.len() implies (#[trigger] words[i]).len() > 0 by {
        assert(nonempty()(words[i]));
    }
    assert forall|i: int, k: int| 0 <= i < words.len() && 0 <= k < words[i].len() implies !is_space(
        #[trigger] words[i][k],
    ) by {
        assert(all.contains(words[i]));
        let j = choose|j: int| 0 <= j < all.len() && all[j] == words[i];
        assert(!is_space(all[j][k]));
    }
    assert forall|k: int| 0 <= k < s.len() && !is_space(#[trigger] s[k]) implies words.len() > 0 by {
        let j = choose|j: int| 0 <= j < all.len() && (#[trigger] all[j]).len() > 0;
        assert(nonempty()(all[j]));
        assert(words.contains(all[j]));
    }
}

proof fn lemma_blank_pieces(s: Seq<char>)
    ensures
        blank_pieces(s).len() > 0,
        forall|i: int, k: int|
            0 <= i < blank_pieces(s).len() && 0 <= k < blank_pieces(s)[i].len() ==> !is_space(
                #[trigger] blank_pieces(s)[i][k],
            ),
        (exists|k: int| 0 <= k < s.len() && !is_space(#[trigger] s[k])) ==> exists|j: int|
            0 <= j < blank_pieces(s).len() && (#[trigger] blank_pieces(s)[j]).len() > 0,
    decreases s.len(),
{
    if s.len() > 0 {
        let rest = s.drop_last();
        let before = blank_pieces(rest);
        let all = blank_pieces(s);
        lemma_blank_pieces(rest);
        let last = all.len() - 1;
        assert forall|i: int, k: int|
            0 <= i < all.len() && 0 <= k < all[i].len() implies !is_space(#[trigger] all[i][k]) by {
            if i < last {
                assert(all[i] == before[i]);
            } else if !is_space(s.last()) {
                let old = before.last();
                assert(all[i] == old.push(s.last()));
                if k < old.len() {
                    assert(!is_space(before[before.len() - 1][k]));
                }
            }
        }
        if exists|k: int| 0 <= k < s.len() && !is_space(#[trigger] s[k]) {
            let k = choose|k: int| 0 <= k < s.len() && !is_space(#[trigger] s[k]);
            if !is_space(s.last()) {
                assert(all[last].len() > 0);
            } else {
                assert(rest[k] == s[k]);
                let j = choose|j: int| 0 <= j < before.len() && (#[trigger] before[j]).len() > 0;
                assert(all[j] == before[j]);
            }
        }
    }
}

/// Replacing characters changes those and no other, and keeps the length.
pub proof fn law_replaced_only_those(s: Seq<char>, from: Seq<char>, to: char)
    ensures
        replaced(s, from, to).len() == s.len(),
        forall|i: int|
            0 <= i < s.len() ==> #[trigger] replaced(s, from, to)[i] == (if from.contains(s[i]) {
                to
            } else {
                s[i]
            }),
{
}

/// Two texts with a separator between them are the halves of the whole, where the
/// first does not hold it.
pub proof fn law_halves_of_both(a: Seq<char>, b: Seq<char>, c: char)
    requires
        !a.contains(c),
    ensures
        halves(a + seq![c] + b, c) == Some((a, b)),
{
    let s = a + seq![c] + b;
    assert forall|j: int| 0 <= j < a.len() implies s[j] != c by {
        assert(s[j] == a[j]);
        if a[j] == c {
            assert(a.contains(c));
        }
    }
    lemma_first_of(s, c, a.len() as int);
    assert(s.take(a.len() as int) =~= a);
    assert(s.skip((a.len() + 1) as int) =~= b);
}

/// A text without the separator is one piece.
pub proof fn law_single_piece(s: Seq<char>, c: char)
    requires
        !s.contains(c),
    ensures
        pieces(s, c) == seq![s],
    decreases s.len(),
{
    if s.len() > 0 {
        let rest = s.drop_last();
        assert(!rest.contains(c)) by {
            if rest.contains(c) {
                let k = choose|k: int| 0 <= k < rest.len() && rest[k] == c;
                assert(s[k] == c);
            }
        }
        law_single_piece(rest, c);
        assert(s.last() != c) by {
            if s.last() == c {
                assert(s[s.len() - 1] == c);
            }
        }
        assert(rest.push(s.last()) =~= s);
        assert(pieces(s, c) =~= seq![s]);
    } else {
        assert(s =~= Seq::<char>::empty());
    }
}

} // verus!
