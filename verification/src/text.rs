//! Text: the pieces of a line, numbers, and text in byte buffers.
use vstd::prelude::*;
use vstd::slice::slice_subrange;
use vstd::string::*;

verus! {

/// The bytes as text, if they are valid UTF-8. Wraps `core::str::from_utf8`,
/// which converts exactly the byte slices that are valid UTF-8 and keeps the
/// bytes as they are.
#[verifier::external_body]
pub(crate) fn utf8_text(b: &[u8]) -> (r: Option<&str>)
    ensures
        r is Some <==> vstd::utf8::valid_utf8(b@),
        r matches Some(s) ==> s.spec_bytes() == b@,
{
    core::str::from_utf8(b).ok()
}

/// The characters as a string. Wraps `String::from_iter`, which puts the
/// characters it is given together in their order.
#[verifier::external_body]
pub(crate) fn string_of(cs: &[char]) -> (r: String)
    ensures
        r@ == cs@,
{
    String::from_iter(cs)
}

/// The text that bytes spell, if they are valid UTF-8.
pub open spec fn text_in(b: Seq<u8>) -> Option<Seq<char>> {
    if vstd::utf8::valid_utf8(b) {
        Some(vstd::utf8::decode_utf8(b))
    } else {
        None
    }
}

/// The text that bytes spell, if they are valid UTF-8.
pub fn text_of(b: &[u8]) -> (r: Option<&str>)
    ensures
        r is Some <==> text_in(b@) is Some,
        r matches Some(s) ==> text_in(b@) == Some(s@),
{
    let r: Option<&str> = utf8_text(b);
    if let Some(s) = r {
        proof {
            vstd::utf8::encode_utf8_decode_utf8(s@);
        }
    }
    r
}

/// The characters of a text.
pub fn chars_of(s: &str) -> (r: Vec<char>)
    ensures
        r@ == s@,
{
    let mut out: Vec<char> = Vec::new();
    for c in it: s.chars()
        invariant
            out@ == it.seq().take(it.index()),
            it.seq() == s@,
    {
        out.push(c);
        assert(out@ =~= it.seq().take(it.index() + 1));
    }
    assert(out@ =~= s@);
    out
}

/// White space, as Unicode defines it.
pub open spec fn is_white(c: char) -> bool {
    let v = c as u32;
    ||| 0x09 <= v <= 0x0d
    ||| v == 0x20
    ||| v == 0x85
    ||| v == 0xa0
    ||| v == 0x1680
    ||| 0x2000 <= v <= 0x200a
    ||| v == 0x2028
    ||| v == 0x2029
    ||| v == 0x202f
    ||| v == 0x205f
    ||| v == 0x3000
}

pub fn white(c: char) -> (r: bool)
    ensures
        r == is_white(c),
{
    let v: u32 = c as u32;
    (v >= 0x09 && v <= 0x0d) || v == 0x20 || v == 0x85 || v == 0xa0 || v == 0x1680 || (v >= 0x2000 && v
        <= 0x200a) || v == 0x2028 || v == 0x2029 || v == 0x202f || v == 0x205f || v == 0x3000
}

/// First place at or after `i` where `c` stands, or the length.
pub open spec fn index_of(s: Seq<char>, c: char, i: int) -> int
    decreases s.len() - i,
{
    if i >= s.len() {
        s.len() as int
    } else if s[i] == c {
        i
    } else {
        index_of(s, c, i + 1)
    }
}

pub proof fn lemma_index_of(s: Seq<char>, c: char, i: int)
    requires
        0 <= i <= s.len(),
    ensures
        i <= index_of(s, c, i) <= s.len(),
        index_of(s, c, i) < s.len() ==> s[index_of(s, c, i)] == c,
        forall|k: int| i <= k < index_of(s, c, i) ==> #[trigger] s[k] != c,
    decreases s.len() - i,
{
    if i < s.len() && s[i] != c {
        lemma_index_of(s, c, i + 1);
    }
}

/// A place is the first one if the character stands there and not before.
pub proof fn lemma_index_is(s: Seq<char>, c: char, i: int, p: int)
    requires
        0 <= i <= p <= s.len(),
        p < s.len() ==> s[p] == c,
        forall|k: int| i <= k < p ==> #[trigger] s[k] != c,
    ensures
        index_of(s, c, i) == p,
    decreases p - i,
{
    if i < p {
        lemma_index_is(s, c, i + 1, p);
    }
}

pub fn find_char(s: &[char], c: char) -> (r: usize)
    ensures
        r == index_of(s@, c, 0),
        r <= s@.len(),
{
    let mut i: usize = 0;
    while i < s.len()
        invariant
            i <= s@.len(),
            index_of(s@, c, 0) == index_of(s@, c, i as int),
        decreases s@.len() - i,
    {
        if s[i] == c {
            return i;
        }
        i = i + 1;
    }
    i
}

/// First place at or after `i` that is no white space, or the length.
pub open spec fn dark_at(s: Seq<char>, i: int) -> int
    decreases s.len() - i,
{
    if i >= s.len() {
        s.len() as int
    } else if is_white(s[i]) {
        dark_at(s, i + 1)
    } else {
        i
    }
}

/// First place at or after `i` that is white space, or the length.
pub open spec fn white_at(s: Seq<char>, i: int) -> int
    decreases s.len() - i,
{
    if i >= s.len() {
        s.len() as int
    } else if is_white(s[i]) {
        i
    } else {
        white_at(s, i + 1)
    }
}

/// How much of the first `n` characters is left without the white space at
/// their end.
pub open spec fn dark_end(s: Seq<char>, n: int) -> int
    decreases n,
{
    if n <= 0 {
        0
    } else if is_white(s[n - 1]) {
        dark_end(s, n - 1)
    } else {
        n
    }
}

pub proof fn lemma_places(s: Seq<char>, i: int)
    requires
        0 <= i <= s.len(),
    ensures
        i <= dark_at(s, i) <= s.len(),
        i <= white_at(s, i) <= s.len(),
        dark_at(s, i) < s.len() ==> !is_white(s[dark_at(s, i)]),
        white_at(s, i) < s.len() ==> is_white(s[white_at(s, i)]),
        i < s.len() && !is_white(s[i]) ==> white_at(s, i) > i,
    decreases s.len() - i,
{
    if i < s.len() {
        lemma_places(s, i + 1);
    }
}

pub proof fn lemma_dark_end(s: Seq<char>, n: int)
    requires
        0 <= n <= s.len(),
    ensures
        0 <= dark_end(s, n) <= n,
    decreases n,
{
    if n > 0 {
        lemma_dark_end(s, n - 1);
    }
}

pub open spec fn trim_start(s: Seq<char>) -> Seq<char> {
    s.subrange(dark_at(s, 0), s.len() as int)
}

pub open spec fn trim_end(s: Seq<char>) -> Seq<char> {
    s.subrange(0, dark_end(s, s.len() as int))
}

/// A text without the white space around it.
pub open spec fn trim(s: Seq<char>) -> Seq<char> {
    trim_end(trim_start(s))
}

/// Text that neither starts nor ends with white space stays as it is.
pub proof fn lemma_trim_same(s: Seq<char>)
    requires
        s.len() > 0 ==> !is_white(s[0]) && !is_white(s[s.len() - 1]),
    ensures
        trim(s) == s,
{
    assert(trim_start(s) =~= s);
    assert(trim_end(s) =~= s);
}

fn skip_white<'a>(s: &'a [char]) -> (r: &'a [char])
    ensures
        r@ == trim_start(s@),
{
    let mut i: usize = 0;
    while i < s.len() && white(s[i])
        invariant
            i <= s@.len(),
            dark_at(s@, 0) == dark_at(s@, i as int),
        decreases s@.len() - i,
    {
        i = i + 1;
    }
    slice_subrange(s, i, s.len())
}

pub fn trimmed_end<'a>(s: &'a [char]) -> (r: &'a [char])
    ensures
        r@ == trim_end(s@),
{
    let mut n: usize = s.len();
    while n > 0 && white(s[n - 1])
        invariant
            n <= s@.len(),
            dark_end(s@, s@.len() as int) == dark_end(s@, n as int),
        decreases n,
    {
        n = n - 1;
    }
    slice_subrange(s, 0, n)
}

pub fn trimmed<'a>(s: &'a [char]) -> (r: &'a [char])
    ensures
        r@ == trim(s@),
{
    trimmed_end(skip_white(s))
}

/// What the slices of a list hold.
pub open spec fn views(v: Seq<&[char]>) -> Seq<Seq<char>> {
    Seq::new(v.len(), |i: int| v[i]@)
}

/// A line without the carriage return at its end.
pub open spec fn chomp(s: Seq<char>) -> Seq<char> {
    if s.len() > 0 && s[s.len() - 1] == '\r' {
        s.subrange(0, s.len() - 1)
    } else {
        s
    }
}

/// The lines of a text. Each ends at a line feed, or a carriage return and a
/// line feed; the last may end with the text.
pub open spec fn lines(s: Seq<char>) -> Seq<Seq<char>>
    decreases s.len(),
{
    let e = index_of(s, '\n', 0);
    if s.len() == 0 {
        Seq::empty()
    } else if e < 0 || e >= s.len() {
        seq![s]
    } else {
        seq![chomp(s.subrange(0, e))] + lines(s.subrange(e + 1, s.len() as int))
    }
}

pub fn lines_of<'a>(s: &'a [char]) -> (r: Vec<&'a [char]>)
    ensures
        views(r@) == lines(s@),
{
    let mut out: Vec<&'a [char]> = Vec::new();
    let mut rest: &'a [char] = s;
    assert(views(out@) + lines(rest@) =~= lines(s@));
    while rest.len() > 0
        invariant
            views(out@) + lines(rest@) == lines(s@),
        decreases rest@.len(),
    {
        let e: usize = find_char(rest, '\n');
        let ghost before = out@;
        let ghost all = lines(rest@);
        if e == rest.len() {
            out.push(rest);
            rest = slice_subrange(rest, e, e);
            assert(views(out@) =~= views(before) + all);
            assert(lines(rest@) =~= Seq::empty());
        } else {
            let mut n: usize = e;
            if n > 0 && rest[n - 1] == '\r' {
                n = n - 1;
            }
            let line: &'a [char] = slice_subrange(rest, 0, n);
            assert(line@ =~= chomp(rest@.subrange(0, e as int)));
            out.push(line);
            rest = slice_subrange(rest, e + 1, rest.len());
            assert(views(out@) =~= views(before).push(line@));
            assert(views(out@) + lines(rest@) =~= views(before) + (seq![line@] + lines(rest@)));
        }
    }
    assert(views(out@) + lines(rest@) =~= views(out@));
    out
}

/// The words of a text: its parts between white space.
pub open spec fn words(s: Seq<char>) -> Seq<Seq<char>>
    decreases s.len(),
{
    let t = trim_start(s);
    let e = white_at(t, 0);
    if t.len() == 0 || e <= 0 || e > t.len() || t.len() > s.len() {
        Seq::empty()
    } else {
        seq![t.subrange(0, e)] + words(t.subrange(e, t.len() as int))
    }
}

pub fn words_of<'a>(s: &'a [char]) -> (r: Vec<&'a [char]>)
    ensures
        views(r@) == words(s@),
{
    let mut out: Vec<&'a [char]> = Vec::new();
    let mut rest: &'a [char] = skip_white(s);
    proof {
        lemma_places(s@, 0);
        lemma_words_trimmed(s@);
    }
    assert(views(out@) + words(rest@) =~= words(s@));
    while rest.len() > 0
        invariant
            views(out@) + words(rest@) == words(s@),
            rest@.len() > 0 ==> !is_white(rest@[0]),
        decreases rest@.len(),
    {
        let ghost before = out@;
        let ghost t = rest@;
        proof {
            assert(trim_start(t) =~= t);
            lemma_places(t, 0);
        }
        let mut e: usize = 1;
        while e < rest.len() && !white(rest[e])
            invariant
                1 <= e <= rest@.len(),
                white_at(rest@, 0) == white_at(rest@, e as int),
            decreases rest@.len() - e,
        {
            e = e + 1;
        }
        let word: &'a [char] = slice_subrange(rest, 0, e);
        out.push(word);
        let after: &'a [char] = slice_subrange(rest, e, rest.len());
        rest = skip_white(after);
        proof {
            lemma_places(after@, 0);
            lemma_words_trimmed(after@);
            assert(views(out@) =~= views(before).push(word@));
            assert(views(out@) + words(rest@) =~= views(before) + (seq![word@] + words(after@)));
        }
    }
    assert(views(out@) + words(rest@) =~= views(out@));
    out
}

proof fn lemma_words_trimmed(s: Seq<char>)
    ensures
        words(trim_start(s)) == words(s),
{
    lemma_places(s, 0);
    let t = trim_start(s);
    assert(trim_start(t) =~= t);
}

/// The parts of a text between separators.
pub open spec fn split(s: Seq<char>, sep: char) -> Seq<Seq<char>>
    decreases s.len(),
{
    let e = index_of(s, sep, 0);
    if e < 0 || e >= s.len() {
        seq![s]
    } else {
        seq![s.subrange(0, e)] + split(s.subrange(e + 1, s.len() as int), sep)
    }
}

pub fn split_at<'a>(s: &'a [char], sep: char) -> (r: Vec<&'a [char]>)
    ensures
        views(r@) == split(s@, sep),
{
    let mut out: Vec<&'a [char]> = Vec::new();
    let mut rest: &'a [char] = s;
    let mut e: usize = find_char(rest, sep);
    assert(views(out@) + split(rest@, sep) =~= split(s@, sep));
    while e < rest.len()
        invariant
            views(out@) + split(rest@, sep) == split(s@, sep),
            e == index_of(rest@, sep, 0),
            e <= rest@.len(),
        decreases rest@.len(),
    {
        let ghost before = out@;
        let ghost t = rest@;
        let part: &'a [char] = slice_subrange(rest, 0, e);
        out.push(part);
        rest = slice_subrange(rest, e + 1, rest.len());
        assert(views(out@) =~= views(before).push(part@));
        assert(views(out@) + split(rest@, sep) =~= views(before) + (seq![part@] + split(rest@, sep)));
        e = find_char(rest, sep);
    }
    let ghost before = out@;
    out.push(rest);
    assert(views(out@) =~= views(before) + seq![rest@]);
    out
}

/// Whether two texts are the same.
pub fn same(a: &[char], b: &[char]) -> (r: bool)
    ensures
        r == (a@ == b@),
{
    if a.len() != b.len() {
        return false;
    }
    let mut i: usize = 0;
    while i < a.len()
        invariant
            i <= a@.len(),
            a@.len() == b@.len(),
            forall|k: int| 0 <= k < i ==> a@[k] == b@[k],
        decreases a@.len() - i,
    {
        if a[i] != b[i] {
            return false;
        }
        i = i + 1;
    }
    assert(a@ =~= b@);
    true
}

pub open spec fn is_digit(c: char) -> bool {
    '0' <= c <= '9'
}

/// The number that digits spell.
pub open spec fn digits_value(s: Seq<char>) -> int
    decreases s.len(),
{
    if s.len() == 0 {
        0
    } else {
        10 * digits_value(s.drop_last()) + (s.last() as u32 - 0x30)
    }
}

pub open spec fn all_digits(s: Seq<char>) -> bool {
    s.len() > 0 && forall|i: int| 0 <= i < s.len() ==> is_digit(#[trigger] s[i])
}

/// The number a text spells: decimal digits, with or without a plus sign in
/// front, for a number up to `max`.
pub open spec fn number(s: Seq<char>, max: int) -> Option<int> {
    let d = if s.len() > 0 && s[0] == '+' {
        s.subrange(1, s.len() as int)
    } else {
        s
    };
    if all_digits(d) && digits_value(d) <= max {
        Some(digits_value(d))
    } else {
        None
    }
}

/// More digits never make a smaller number.
proof fn lemma_value_grows(s: Seq<char>, i: int)
    requires
        0 <= i <= s.len(),
        forall|k: int| 0 <= k < s.len() ==> is_digit(#[trigger] s[k]),
    ensures
        0 <= digits_value(s.take(i)) <= digits_value(s),
    decreases s.len(), i,
{
    if i < s.len() {
        let t = s.drop_last();
        assert forall|k: int| 0 <= k < t.len() implies is_digit(#[trigger] t[k]) by {
            assert(is_digit(s[k]));
        }
        lemma_value_grows(t, i);
        lemma_value_grows(t, 0);
        assert(t.take(i) =~= s.take(i));
        assert(is_digit(s[s.len() - 1]));
        assert(digits_value(s) >= digits_value(t));
    } else {
        assert(s.take(i) =~= s);
        if s.len() > 0 {
            let t = s.drop_last();
            assert forall|k: int| 0 <= k < t.len() implies is_digit(#[trigger] t[k]) by {
                assert(is_digit(s[k]));
            }
            lemma_value_grows(t, t.len() as int);
            assert(t.take(t.len() as int) =~= t);
            assert(is_digit(s[s.len() - 1]));
        }
    }
}

pub fn parse_number(s: &[char], max: u64) -> (r: Option<u64>)
    ensures
        r is Some <==> number(s@, max as int) is Some,
        r matches Some(v) ==> number(s@, max as int) == Some(v as int),
{
    let d: &[char] = if s.len() > 0 && s[0] == '+' {
        slice_subrange(s, 1, s.len())
    } else {
        s
    };
    if d.len() == 0 {
        return None;
    }
    let mut v: u64 = 0;
    let mut i: usize = 0;
    let mut fits: bool = true;
    assert(d@.take(0) =~= Seq::empty());
    while i < d.len()
        invariant
            i <= d@.len(),
            d@ == if s@.len() > 0 && s@[0] == '+' {
                s@.subrange(1, s@.len() as int)
            } else {
                s@
            },
            forall|k: int| 0 <= k < i ==> is_digit(#[trigger] d@[k]),
            fits ==> v == digits_value(d@.take(i as int)) && v <= max,
            !fits ==> digits_value(d@.take(i as int)) > max,
        decreases d@.len() - i,
    {
        let c: char = d[i];
        if c < '0' || c > '9' {
            assert(!is_digit(d@[i as int]));
            return None;
        }
        let ghost t = d@.take(i + 1);
        proof {
            assert(t.drop_last() =~= d@.take(i as int));
            assert forall|k: int| 0 <= k < t.drop_last().len() implies is_digit(
                #[trigger] t.drop_last()[k],
            ) by {
                assert(is_digit(d@[k]));
            }
            lemma_value_grows(t.drop_last(), 0);
        }
        let k: u64 = (c as u32 - 0x30) as u64;
        if fits {
            let w: u128 = v as u128 * 10 + k as u128;
            if w > max as u128 {
                fits = false;
            } else {
                v = w as u64;
            }
        }
        i = i + 1;
    }
    assert(d@.take(i as int) =~= d@);
    if fits {
        Some(v)
    } else {
        None
    }
}

/// Blanks, tabs and line ends are white space; no visible ASCII character is.
pub proof fn lemma_white(c: char)
    ensures
        c == ' ' || c == '\t' || c == '\n' || c == '\r' ==> is_white(c),
        0x21 <= c as u32 <= 0x7e ==> !is_white(c),
{
}

proof fn lemma_dark_at_is(s: Seq<char>, i: int, p: int)
    requires
        0 <= i <= p <= s.len(),
        p < s.len() ==> !is_white(s[p]),
        forall|k: int| i <= k < p ==> is_white(#[trigger] s[k]),
    ensures
        dark_at(s, i) == p,
    decreases p - i,
{
    if i < p {
        assert(is_white(s[i]));
        lemma_dark_at_is(s, i + 1, p);
    }
}

proof fn lemma_white_at_is(s: Seq<char>, i: int, p: int)
    requires
        0 <= i <= p <= s.len(),
        p < s.len() ==> is_white(s[p]),
        forall|k: int| i <= k < p ==> !is_white(#[trigger] s[k]),
    ensures
        white_at(s, i) == p,
    decreases p - i,
{
    if i < p {
        assert(!is_white(s[i]));
        lemma_white_at_is(s, i + 1, p);
    }
}

proof fn lemma_dark_end_is(s: Seq<char>, n: int, p: int)
    requires
        0 <= p <= n <= s.len(),
        p > 0 ==> !is_white(s[p - 1]),
        forall|k: int| p <= k < n ==> is_white(#[trigger] s[k]),
    ensures
        dark_end(s, n) == p,
    decreases n - p,
{
    if p < n {
        assert(is_white(s[n - 1]));
        lemma_dark_end_is(s, n - 1, p);
    }
}

/// Trimming takes the white space off both ends, all of it and nothing else.
pub proof fn lemma_trim_takes_white(a: Seq<char>, s: Seq<char>, b: Seq<char>)
    requires
        forall|i: int| 0 <= i < a.len() ==> is_white(#[trigger] a[i]),
        forall|i: int| 0 <= i < b.len() ==> is_white(#[trigger] b[i]),
        s.len() > 0,
        !is_white(s[0]),
        !is_white(s.last()),
    ensures
        trim(a + s + b) == s,
        trim(a) == Seq::<char>::empty(),
{
    let t = a + s + b;
    assert(t[a.len() as int] == s[0]);
    lemma_dark_at_is(t, 0, a.len() as int);
    assert(trim_start(t) =~= s + b);
    let u = s + b;
    assert(u[s.len() - 1] == s.last());
    lemma_dark_end_is(u, u.len() as int, s.len() as int);
    assert(trim_end(u) =~= s);
    lemma_dark_at_is(a, 0, a.len() as int);
    assert(trim_start(a) =~= Seq::empty());
    assert(trim_end(Seq::empty()) =~= Seq::empty());
}

/// A line ends at a line feed or at a carriage return and a line feed, neither of
/// which belongs to it; what follows are the other lines. A last line needs no
/// end.
pub proof fn lemma_lines(line: Seq<char>, rest: Seq<char>)
    requires
        !line.contains('\n'),
        line.len() > 0 ==> line.last() != '\r',
    ensures
        lines(line + seq!['\n'] + rest) == seq![line] + lines(rest),
        lines(line + seq!['\r', '\n'] + rest) == seq![line] + lines(rest),
        line.len() > 0 ==> lines(line) == seq![line],
        lines(Seq::empty()) == Seq::<Seq<char>>::empty(),
{
    let n = line.len() as int;
    assert forall|k: int| 0 <= k < n implies #[trigger] line[k] != '\n' by {
        assert(line.contains(line[k]));
    }
    let s = line + seq!['\n'] + rest;
    assert forall|k: int| 0 <= k < n implies #[trigger] s[k] != '\n' by {
        assert(s[k] == line[k]);
    }
    lemma_index_is(s, '\n', 0, n);
    assert(s.subrange(0, n) =~= line);
    assert(s.subrange(n + 1, s.len() as int) =~= rest);
    let t = line + seq!['\r', '\n'] + rest;
    assert forall|k: int| 0 <= k < n + 1 implies #[trigger] t[k] != '\n' by {
        if k < n {
            assert(t[k] == line[k]);
        }
    }
    lemma_index_is(t, '\n', 0, n + 1);
    let u = t.subrange(0, n + 1);
    assert(u[n] == '\r');
    assert(chomp(u) =~= line);
    assert(t.subrange(n + 2, t.len() as int) =~= rest);
    lemma_index_is(line, '\n', 0, n);
}

/// Words are what stands between white space, however much of it there is.
pub proof fn lemma_words(a: Seq<char>, word: Seq<char>, c: char, rest: Seq<char>)
    requires
        forall|i: int| 0 <= i < a.len() ==> is_white(#[trigger] a[i]),
        word.len() > 0,
        forall|i: int| 0 <= i < word.len() ==> !is_white(#[trigger] word[i]),
        is_white(c),
    ensures
        words(a + word + seq![c] + rest) == seq![word] + words(rest),
        words(a + word) == seq![word],
        words(a) == Seq::<Seq<char>>::empty(),
{
    let s = a + word + seq![c] + rest;
    let n = word.len() as int;
    assert(s[a.len() as int] == word[0]);
    lemma_dark_at_is(s, 0, a.len() as int);
    let t = word + seq![c] + rest;
    assert(trim_start(s) =~= t);
    assert forall|k: int| 0 <= k < n implies !is_white(#[trigger] t[k]) by {
        assert(t[k] == word[k]);
    }
    assert(t[n] == c);
    lemma_white_at_is(t, 0, n);
    assert(t.subrange(0, n) =~= word);
    let more = t.subrange(n, t.len() as int);
    assert(more =~= seq![c] + rest);
    lemma_words_trimmed(more);
    lemma_words_trimmed(rest);
    assert(trim_start(more) =~= trim_start(rest)) by {
        lemma_places(rest, 0);
        let p = dark_at(rest, 0);
        assert forall|k: int| 0 <= k < p implies is_white(#[trigger] rest[k]) by {
            lemma_white_before(rest, 0, k);
        }
        assert forall|k: int| 0 <= k < p + 1 implies is_white(#[trigger] more[k]) by {
            if k > 0 {
                assert(more[k] == rest[k - 1]);
            }
        }
        if p < rest.len() {
            assert(more[p + 1] == rest[p]);
        }
        lemma_dark_at_is(more, 0, p + 1);
    }
    let u = a + word;
    assert(u[a.len() as int] == word[0]);
    lemma_dark_at_is(u, 0, a.len() as int);
    assert(trim_start(u) =~= word);
    lemma_white_at_is(word, 0, n);
    assert(word.subrange(0, n) =~= word);
    let none = word.subrange(n, n);
    assert(none =~= Seq::empty());
    assert(trim_start(none).len() == 0);
    assert(words(none) =~= Seq::empty());
    lemma_dark_at_is(a, 0, a.len() as int);
    assert(trim_start(a).len() == 0);
}

proof fn lemma_white_before(s: Seq<char>, i: int, k: int)
    requires
        0 <= i <= k < dark_at(s, i),
        k < s.len(),
    ensures
        is_white(s[k]),
    decreases k - i,
{
    if i < k && i < s.len() && is_white(s[i]) {
        lemma_white_before(s, i + 1, k);
    }
}

/// The parts of a text are what stands between separators, empty ones too.
pub proof fn lemma_split(part: Seq<char>, sep: char, rest: Seq<char>)
    requires
        !part.contains(sep),
    ensures
        split(part + seq![sep] + rest, sep) == seq![part] + split(rest, sep),
        split(part, sep) == seq![part],
{
    let n = part.len() as int;
    let s = part + seq![sep] + rest;
    assert forall|k: int| 0 <= k < n implies #[trigger] part[k] != sep by {
        assert(part.contains(part[k]));
    }
    assert forall|k: int| 0 <= k < n implies #[trigger] s[k] != sep by {
        assert(s[k] == part[k]);
    }
    lemma_index_is(s, sep, 0, n);
    assert(s.subrange(0, n) =~= part);
    assert(s.subrange(n + 1, s.len() as int) =~= rest);
    lemma_index_is(part, sep, 0, n);
}

/// The number with one digit more is ten times the number without it, and the
/// digit. Anything but digits is no number, and neither is one beyond the limit.
pub proof fn lemma_number_steps(s: Seq<char>, c: char, max: int, i: int)
    requires
        all_digits(s),
        0 <= i <= s.len(),
    ensures
        '0' <= c <= '9' ==> {
            let v = 10 * digits_value(s) + (c as int - '0' as int);
            &&& v <= max ==> number(s.push(c), max) == Some(v)
            &&& v > max ==> number(s.push(c), max) is None
        },
        '0' <= c <= '9' && c as int - '0' as int <= max ==> number(seq![c], max) == Some(c as int - '0' as int),
        !('0' <= c <= '9') ==> number(s.push(c), max) is None,
        number(seq!['+'] + s, max) == number(s, max),
        number(Seq::empty(), max) is None,
{
    let t = s.push(c);
    assert(t.drop_last() =~= s);
    assert(t[0] == s[0]);
    assert(is_digit(s[0]));
    if '0' <= c <= '9' {
        assert forall|k: int| 0 <= k < t.len() implies is_digit(#[trigger] t[k]) by {
            if k < s.len() {
                assert(t[k] == s[k]);
            }
        }
        let one = seq![c];
        assert(one.drop_last() =~= Seq::<char>::empty());
        assert(digits_value(Seq::<char>::empty()) == 0);
        assert(one.last() == c);
        assert(digits_value(one) == c as int - '0' as int);
        assert(all_digits(one));
    } else {
        assert(!is_digit(t[s.len() as int]));
    }
    assert((seq!['+'] + s).subrange(1, (seq!['+'] + s).len() as int) =~= s);
}

} // verus!
