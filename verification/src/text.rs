//! Text as sequences of characters: the searching, trimming, splitting and
//! number handling that the protocol, URI and command-line layers share.
//!
//! A `String` or `&str` is modelled by its view, a `Seq<char>`.  The functions
//! here take apart and rebuild text through slices of `char`.

use vstd::prelude::*;
use vstd::slice::slice_subrange;

verus! {

/// `String::push` of the standard library: appends one character to the end of
/// the string and leaves what was there before it unchanged.
pub assume_specification[ String::push ](s: &mut String, c: char)
    ensures
        final(s)@ == old(s)@.push(c),
;

/// The characters of `s`.
pub fn to_chars(s: &str) -> (v: Vec<char>)
    ensures
        v@ == s@,
{
    let mut v: Vec<char> = Vec::new();
    for c in it: s.chars()
        invariant
            it.seq() == s@,
            v@ == it.seq().take(it.index()),
    {
        v.push(c);
    }
    v
}

/// The string made of the characters `cs`.
pub fn to_text(cs: &[char]) -> (s: String)
    ensures
        s@ == cs@,
{
    let mut s = String::new();
    for i in 0..cs.len()
        invariant
            s@ == cs@.take(i as int),
    {
        s.push(cs[i]);
        assert(cs@.take(i + 1) == cs@.take(i as int).push(cs@[i as int]));
    }
    assert(cs@.take(cs@.len() as int) == cs@);
    s
}

/// Appends `tail` to `s`.
pub fn append(s: &mut String, tail: &str)
    ensures
        final(s)@ == old(s)@ + tail@,
{
    let ghost start = s@;
    let cs = to_chars(tail);
    assert(start + tail@.take(0) == start);
    for i in 0..cs.len()
        invariant
            cs@ == tail@,
            s@ == start + tail@.take(i as int),
    {
        s.push(cs[i]);
        assert(tail@.take(i + 1) == tail@.take(i as int).push(tail@[i as int]));
    }
    assert(tail@.take(tail@.len() as int) == tail@);
}

/// An owned copy of `s`.
pub fn owned(s: &str) -> (r: String)
    ensures
        r@ == s@,
{
    let mut r = String::new();
    append(&mut r, s);
    r
}

/// Whether two runs of characters are the same.
pub fn same_chars(a: &[char], b: &[char]) -> (r: bool)
    ensures
        r == (a@ == b@),
{
    if a.len() != b.len() {
        return false;
    }
    for i in 0..a.len()
        invariant
            a@.len() == b@.len(),
            forall|j: int| 0 <= j < i ==> a@[j] == b@[j],
    {
        if a[i] != b[i] {
            return false;
        }
    }
    assert(a@ == b@);
    true
}

/// Whether two strings are the same.
pub fn same_text(a: &str, b: &str) -> (r: bool)
    ensures
        r == (a@ == b@),
{
    same_chars(to_chars(a).as_slice(), to_chars(b).as_slice())
}

/// Whether the characters `cs` spell `s`.
pub fn spells(cs: &[char], s: &str) -> (r: bool)
    ensures
        r == (cs@ == s@),
{
    same_chars(cs, to_chars(s).as_slice())
}

// --- prefixes and occurrences --------------------------------------------------

/// Whether `cs` begins with `prefix`.
pub fn starts_with(cs: &[char], prefix: &str) -> (r: bool)
    ensures
        r == prefix@.is_prefix_of(cs@),
{
    let p = to_chars(prefix);
    if p.len() > cs.len() {
        return false;
    }
    let head = slice_subrange(cs, 0, p.len());
    same_chars(p.as_slice(), head)
}

/// `needle` occurs in `hay` starting at position `i`.
pub open spec fn occurs_at(hay: Seq<char>, needle: Seq<char>, i: int) -> bool {
    &&& 0 <= i
    &&& i + needle.len() <= hay.len()
    &&& hay.subrange(i, i + needle.len()) == needle
}

/// `needle` occurs somewhere in `hay`.
pub open spec fn occurs(hay: Seq<char>, needle: Seq<char>) -> bool {
    exists|i: int| occurs_at(hay, needle, i)
}

/// Whether `needle` occurs in `hay`.
pub fn contains(hay: &str, needle: &str) -> (r: bool)
    ensures
        r == occurs(hay@, needle@),
{
    let h = to_chars(hay);
    let n = to_chars(needle);
    if n.len() == 0 {
        assert(hay@.subrange(0, 0) == needle@);
        assert(occurs_at(hay@, needle@, 0));
        return true;
    }
    for i in 0..h.len()
        invariant
            h@ == hay@,
            n@ == needle@,
            n@.len() > 0,
            forall|j: int| 0 <= j < i ==> !occurs_at(hay@, needle@, j),
    {
        if n.len() <= h.len() - i {
            let window = slice_subrange(h.as_slice(), i, i + n.len());
            if same_chars(window, n.as_slice()) {
                assert(occurs_at(hay@, needle@, i as int));
                return true;
            }
        }
    }
    false
}

// --- white space ---------------------------------------------------------------

/// The characters with the Unicode `White_Space` property.
pub open spec fn is_white(c: char) -> bool {
    let n = c as u32;
    ||| 0x09 <= n <= 0x0D
    ||| n == 0x20
    ||| n == 0x85
    ||| n == 0xA0
    ||| n == 0x1680
    ||| 0x2000 <= n <= 0x200A
    ||| n == 0x2028
    ||| n == 0x2029
    ||| n == 0x202F
    ||| n == 0x205F
    ||| n == 0x3000
}

/// Whether `c` is white space.
pub fn is_whitespace(c: char) -> (r: bool)
    ensures
        r == is_white(c),
{
    let n: u32 = c as u32;
    (0x09 <= n && n <= 0x0D) || n == 0x20 || n == 0x85 || n == 0xA0 || n == 0x1680 || (0x2000 <= n
        && n <= 0x200A) || n == 0x2028 || n == 0x2029 || n == 0x202F || n == 0x205F || n == 0x3000
}

/// `s` without its leading white space.
pub open spec fn trim_start(s: Seq<char>) -> Seq<char>
    decreases s.len(),
{
    if s.len() > 0 && is_white(s[0]) {
        trim_start(s.drop_first())
    } else {
        s
    }
}

/// `s` without its trailing white space.
pub open spec fn trim_end(s: Seq<char>) -> Seq<char>
    decreases s.len(),
{
    if s.len() > 0 && is_white(s.last()) {
        trim_end(s.drop_last())
    } else {
        s
    }
}

/// `s` without the white space around it.
pub open spec fn trimmed(s: Seq<char>) -> Seq<char> {
    trim_end(trim_start(s))
}

proof fn lemma_trim_end_front(s: Seq<char>)
    ensures
        trim_end(s).len() <= s.len(),
        trim_end(s).len() > 0 ==> trim_end(s)[0] == s[0] && !is_white(trim_end(s).last()),
    decreases s.len(),
{
    if s.len() > 0 && is_white(s.last()) {
        lemma_trim_end_front(s.drop_last());
    }
}

proof fn lemma_trim_start_front(s: Seq<char>)
    ensures
        trim_start(s).len() > 0 ==> !is_white(trim_start(s)[0]),
    decreases s.len(),
{
    if s.len() > 0 && is_white(s[0]) {
        lemma_trim_start_front(s.drop_first());
    }
}

/// Trimmed text has no white space around it that could be trimmed again.
pub proof fn lemma_trimmed_stays(s: Seq<char>)
    ensures
        trimmed(trimmed(s)) == trimmed(s),
{
    lemma_trim_start_front(s);
    lemma_trim_end_front(trim_start(s));
}

/// The part of `s` between its leading and its trailing white space.
pub fn trim(s: &[char]) -> (r: &[char])
    ensures
        r@ == trimmed(s@),
{
    let mut from: usize = 0;
    assert(s@.skip(0) == s@);
    while from < s.len() && is_whitespace(s[from])
        invariant
            from <= s@.len(),
            trim_start(s@) == trim_start(s@.skip(from as int)),
        decreases s@.len() - from,
    {
        assert(s@.skip(from as int).drop_first() == s@.skip(from + 1));
        from = from + 1;
    }
    let ghost body = s@.skip(from as int);
    assert(trim_start(s@) == body);
    let mut to: usize = s.len();
    assert(body == s@.subrange(from as int, to as int));
    while from < to && is_whitespace(s[to - 1])
        invariant
            from <= to <= s@.len(),
            trim_end(body) == trim_end(s@.subrange(from as int, to as int)),
        decreases to,
    {
        assert(s@.subrange(from as int, to as int).drop_last() == s@.subrange(
            from as int,
            to - 1,
        ));
        to = to - 1;
    }
    slice_subrange(s, from, to)
}

proof fn lemma_trim_start_at(s: Seq<char>, from: int)
    requires
        0 <= from <= s.len(),
        forall|i: int| 0 <= i < from ==> is_white(#[trigger] s[i]),
        from < s.len() ==> !is_white(s[from]),
    ensures
        trim_start(s) == s.skip(from),
    decreases from,
{
    if from > 0 {
        let tail = s.drop_first();
        assert(is_white(s[0]));
        assert forall|i: int| 0 <= i < from - 1 implies is_white(#[trigger] tail[i]) by {
            assert(is_white(s[i + 1]));
        }
        lemma_trim_start_at(tail, from - 1);
        assert(tail.skip(from - 1) == s.skip(from));
    } else {
        assert(s.skip(0) == s);
    }
}

proof fn lemma_trim_end_at(s: Seq<char>, to: int)
    requires
        0 <= to <= s.len(),
        forall|i: int| to <= i < s.len() ==> is_white(#[trigger] s[i]),
        to > 0 ==> !is_white(s[to - 1]),
    ensures
        trim_end(s) == s.take(to),
    decreases s.len() - to,
{
    if to < s.len() {
        let front = s.drop_last();
        assert(is_white(s[s.len() - 1]));
        lemma_trim_end_at(front, to);
        assert(front.take(to) == s.take(to));
    } else {
        assert(s.take(to) == s);
    }
}

/// The part of `s` between its leading and its trailing white space, lent and not
/// copied.
pub fn trim_str(s: &str) -> (r: &str)
    ensures
        r@ == trimmed(s@),
{
    let n: usize = s.unicode_len();
    let mut at: usize = 0;
    let mut from: usize = 0;
    let mut to: usize = 0;
    for c in it: s.chars()
        invariant
            it.seq() == s@,
            n == s@.len(),
            at == it.index(),
            from <= to <= at,
            to == 0 ==> from == 0,
            to > 0 ==> from < to && !is_white(s@[from as int]) && !is_white(s@[to - 1]),
            forall|i: int| 0 <= i < from ==> is_white(#[trigger] s@[i]),
            forall|i: int| to <= i < at ==> is_white(#[trigger] s@[i]),
    {
        if !is_whitespace(c) {
            if to == 0 {
                from = at;
            }
            to = at + 1;
        }
        at = at + 1;
    }
    proof {
        if to == 0 {
            lemma_trim_start_at(s@, n as int);
            assert(trimmed(s@) == s@.subrange(0, 0));
        } else {
            lemma_trim_start_at(s@, from as int);
            let body = s@.skip(from as int);
            assert forall|i: int| to - from <= i < body.len() implies is_white(
                #[trigger] body[i],
            ) by {
                assert(is_white(s@[from + i]));
            }
            lemma_trim_end_at(body, to - from);
            assert(body.take(to - from) == s@.subrange(from as int, to as int));
        }
    }
    s.substring_char(from, to)
}

// --- splitting -----------------------------------------------------------------

/// The position of the first `c` in `s`, or the length of `s` without one.
pub open spec fn find_char(s: Seq<char>, c: char) -> nat
    decreases s.len(),
{
    if s.len() == 0 || s[0] == c {
        0
    } else {
        1 + find_char(s.drop_first(), c)
    }
}

/// What `find_char` finds is the first occurrence.
pub proof fn lemma_find_char(s: Seq<char>, c: char)
    ensures
        find_char(s, c) <= s.len(),
        find_char(s, c) < s.len() ==> s[find_char(s, c) as int] == c,
        forall|j: int| 0 <= j < find_char(s, c) ==> s[j] != c,
    decreases s.len(),
{
    if s.len() > 0 && s[0] != c {
        let t = s.drop_first();
        lemma_find_char(t, c);
        assert forall|j: int| 0 <= j < find_char(s, c) implies s[j] != c by {
            if j > 0 {
                assert(t[j - 1] == s[j]);
            }
        }
    }
}

/// A position with `c` on it and none before it is the one `find_char` finds.
pub proof fn lemma_find_char_unique(s: Seq<char>, c: char, i: int)
    requires
        0 <= i <= s.len(),
        i < s.len() ==> s[i] == c,
        forall|j: int| 0 <= j < i ==> s[j] != c,
    ensures
        find_char(s, c) == i,
{
    lemma_find_char(s, c);
    let k = find_char(s, c) as int;
    if k < i {
        assert(s[k] != c);
    }
    if i < k {
        assert(s[i] != c);
    }
}

/// The position of the first `c` in `s`, or the length of `s` without one.
pub fn position(s: &[char], c: char) -> (i: usize)
    ensures
        i == find_char(s@, c),
        i <= s@.len(),
{
    let mut i: usize = 0;
    while i < s.len() && s[i] != c
        invariant
            i <= s@.len(),
            forall|j: int| 0 <= j < i ==> s@[j] != c,
        decreases s@.len() - i,
    {
        i = i + 1;
    }
    proof {
        lemma_find_char_unique(s@, c, i as int);
    }
    i
}

/// `s` cut at its first `c`: what stands before it and what stands behind it.
pub open spec fn split_once(s: Seq<char>, c: char) -> Option<(Seq<char>, Seq<char>)> {
    let i = find_char(s, c) as int;
    if i < s.len() {
        Some((s.take(i), s.skip(i + 1)))
    } else {
        None
    }
}

/// `s` cut at its first `c`: what stands before it and what stands behind it.
pub fn cut<'a>(s: &'a [char], c: char) -> (r: Option<(&'a [char], &'a [char])>)
    ensures
        match r {
            Some((a, b)) => split_once(s@, c) == Some((a@, b@)),
            None => split_once(s@, c) is None,
        },
{
    let i = position(s, c);
    if i < s.len() {
        let a = slice_subrange(s, 0, i);
        let b = slice_subrange(s, i + 1, s.len());
        assert(a@ == s@.take(i as int) && b@ == s@.skip(i + 1));
        Some((a, b))
    } else {
        None
    }
}

/// The pieces of `s` between its `c`s, the empty ones too.
pub open spec fn pieces(s: Seq<char>, c: char) -> Seq<Seq<char>>
    decreases s.len(),
{
    let i = find_char(s, c) as int;
    if i < s.len() {
        seq![s.take(i)] + pieces(s.skip(i + 1), c)
    } else {
        seq![s]
    }
}

/// One line without the line feed that ended it: a carriage return right before
/// the line feed belongs to the line ending.
pub open spec fn without_return(s: Seq<char>) -> Seq<char> {
    if s.len() > 0 && s.last() == '\r' {
        s.drop_last()
    } else {
        s
    }
}

/// The lines of `s`, without their line endings.  The last line needs none.
pub open spec fn lines_of(s: Seq<char>) -> Seq<Seq<char>>
    decreases s.len(),
{
    if s.len() == 0 {
        seq![]
    } else {
        let i = find_char(s, '\n') as int;
        if i < s.len() {
            seq![without_return(s.take(i))] + lines_of(s.skip(i + 1))
        } else {
            seq![s]
        }
    }
}

/// The texts that a list of slices stands for.
pub open spec fn texts(v: Seq<&[char]>) -> Seq<Seq<char>> {
    v.map_values(|x: &[char]| x@)
}

/// The pieces of `s` between its `c`s, the empty ones too.
pub fn split<'a>(s: &'a [char], c: char) -> (r: Vec<&'a [char]>)
    ensures
        texts(r@) == pieces(s@, c),
{
    let mut r: Vec<&'a [char]> = Vec::new();
    let mut rest: &'a [char] = s;
    loop
        invariant
            pieces(s@, c) == texts(r@) + pieces(rest@, c),
        decreases rest@.len(),
    {
        let i = position(rest, c);
        let ghost before = r@;
        if i < rest.len() {
            let piece = slice_subrange(rest, 0, i);
            let tail = slice_subrange(rest, i + 1, rest.len());
            r.push(piece);
            assert(texts(r@) == texts(before).push(piece@));
            assert(texts(before) + pieces(rest@, c) == texts(r@) + pieces(tail@, c));
            rest = tail;
        } else {
            r.push(rest);
            assert(texts(r@) == texts(before) + seq![rest@]);
            return r;
        }
    }
}

/// The lines of `s`, without their line endings.
pub fn lines<'a>(s: &'a [char]) -> (r: Vec<&'a [char]>)
    ensures
        texts(r@) == lines_of(s@),
{
    let mut r: Vec<&'a [char]> = Vec::new();
    let mut rest: &'a [char] = s;
    assert(texts(r@) + lines_of(rest@) == lines_of(rest@));
    while rest.len() > 0
        invariant
            lines_of(s@) == texts(r@) + lines_of(rest@),
        decreases rest@.len(),
    {
        let i = position(rest, '\n');
        let ghost before = r@;
        if i < rest.len() {
            let mut end: usize = i;
            if i > 0 && rest[i - 1] == '\r' {
                end = i - 1;
            }
            let line = slice_subrange(rest, 0, end);
            let tail = slice_subrange(rest, i + 1, rest.len());
            r.push(line);
            assert(line@ == without_return(rest@.take(i as int)));
            assert(texts(r@) == texts(before).push(line@));
            assert(texts(before) + lines_of(rest@) == texts(r@) + lines_of(tail@));
            rest = tail;
        } else {
            r.push(rest);
            assert(texts(r@) == texts(before) + seq![rest@]);
            return r;
        }
    }
    assert(lines_of(rest@) == Seq::<Seq<char>>::empty());
    r
}

// --- letter case ---------------------------------------------------------------

/// `c` with an ASCII capital made small.
pub open spec fn ascii_lower(c: char) -> char {
    if 'A' <= c <= 'Z' {
        ((c as u8 + 32) as u8) as char
    } else {
        c
    }
}

/// `c` with an ASCII small letter made a capital.
pub open spec fn ascii_upper(c: char) -> char {
    if 'a' <= c <= 'z' {
        ((c as u8 - 32) as u8) as char
    } else {
        c
    }
}

/// `cs` with its ASCII capitals made small.
pub fn to_ascii_lowercase(cs: &[char]) -> (r: Vec<char>)
    ensures
        r@ == cs@.map_values(|c: char| ascii_lower(c)),
{
    let mut r: Vec<char> = Vec::new();
    for i in 0..cs.len()
        invariant
            r@ == cs@.take(i as int).map_values(|c: char| ascii_lower(c)),
    {
        let c = cs[i];
        if 'A' <= c && c <= 'Z' {
            r.push((c as u8 + 32) as char);
        } else {
            r.push(c);
        }
        assert(cs@.take(i + 1) == cs@.take(i as int).push(c));
    }
    assert(cs@.take(cs@.len() as int) == cs@);
    r
}

/// `cs` with its ASCII small letters made capitals.
pub fn to_ascii_uppercase(cs: &[char]) -> (r: Vec<char>)
    ensures
        r@ == cs@.map_values(|c: char| ascii_upper(c)),
{
    let mut r: Vec<char> = Vec::new();
    for i in 0..cs.len()
        invariant
            r@ == cs@.take(i as int).map_values(|c: char| ascii_upper(c)),
    {
        let c = cs[i];
        if 'a' <= c && c <= 'z' {
            r.push((c as u8 - 32) as char);
        } else {
            r.push(c);
        }
        assert(cs@.take(i + 1) == cs@.take(i as int).push(c));
    }
    assert(cs@.take(cs@.len() as int) == cs@);
    r
}

// --- numbers -------------------------------------------------------------------

/// The digit of value `v`: `0` to `9`, and on from `a`.
pub open spec fn digit_char(v: nat) -> char {
    if v < 10 {
        (('0' as u8 + v) as u8) as char
    } else {
        (('a' as u8 + (v - 10)) as u8) as char
    }
}

/// The value of the digit `c`, in either letter case, where it is below `radix`.
pub open spec fn digit_value(c: char, radix: nat) -> Option<nat> {
    let v: int = if '0' <= c <= '9' {
        c as int - '0' as int
    } else if 'a' <= c <= 'z' {
        c as int - 'a' as int + 10
    } else if 'A' <= c <= 'Z' {
        c as int - 'A' as int + 10
    } else {
        radix as int
    };
    if v < radix {
        Some(v as nat)
    } else {
        None
    }
}

/// The number that the digits `s` spell, most significant digit first.
pub open spec fn digits_value(s: Seq<char>, radix: nat) -> Option<nat>
    decreases s.len(),
{
    if s.len() == 0 {
        Some(0)
    } else {
        match (digits_value(s.drop_last(), radix), digit_value(s.last(), radix)) {
            (Some(v), Some(d)) => Some(v * radix + d),
            _ => None,
        }
    }
}

/// The number that `s` spells: one digit or more, with a plus sign before them
/// or without one.
pub open spec fn number(s: Seq<char>, radix: nat) -> Option<nat> {
    let digits = if s.len() > 0 && s[0] == '+' {
        s.skip(1)
    } else {
        s
    };
    if digits.len() == 0 {
        None
    } else {
        digits_value(digits, radix)
    }
}

/// The number that `s` spells, where it is `max` at the most.
pub open spec fn number_up_to(s: Seq<char>, radix: nat, max: nat) -> Option<nat> {
    match number(s, radix) {
        Some(v) => if v <= max {
            Some(v)
        } else {
            None
        },
        None => None,
    }
}

/// More digits never spell a smaller number, nor mend a wrong digit.
proof fn lemma_digits_prefix(s: Seq<char>, radix: nat, k: int)
    requires
        0 <= k <= s.len(),
        radix >= 1,
        digits_value(s, radix) is Some,
    ensures
        digits_value(s.take(k), radix) is Some,
        digits_value(s.take(k), radix)->0 <= digits_value(s, radix)->0,
    decreases s.len(),
{
    if k == s.len() {
        assert(s.take(k) == s);
    } else {
        let t = s.drop_last();
        lemma_digits_prefix(t, radix, k);
        assert(t.take(k) == s.take(k));
        let v = digits_value(t, radix)->0;
        assert(v <= v * radix) by (nonlinear_arith)
            requires
                radix >= 1,
        ;
    }
}

/// The value of the digit `c`, where it is below `radix`.
fn digit(c: char, radix: u32) -> (r: Option<u32>)
    requires
        radix <= 36,
    ensures
        match r {
            Some(v) => digit_value(c, radix as nat) == Some(v as nat) && v < radix,
            None => digit_value(c, radix as nat) is None,
        },
{
    let n: u32 = c as u32;
    let v: u32 = if '0' <= c && c <= '9' {
        n - 0x30
    } else if 'a' <= c && c <= 'z' {
        n - 0x61 + 10
    } else if 'A' <= c && c <= 'Z' {
        n - 0x41 + 10
    } else {
        radix
    };
    if v < radix {
        Some(v)
    } else {
        None
    }
}

/// The number that `s` spells in the given radix, where it is `max` at the most.
pub fn parse_number(s: &[char], radix: u32, max: u32) -> (r: Option<u32>)
    requires
        2 <= radix <= 36,
    ensures
        match r {
            Some(v) => number_up_to(s@, radix as nat, max as nat) == Some(v as nat),
            None => number_up_to(s@, radix as nat, max as nat) is None,
        },
{
    let digits: &[char] = if s.len() > 0 && s[0] == '+' {
        slice_subrange(s, 1, s.len())
    } else {
        s
    };
    if digits.len() == 0 {
        return None;
    }
    let mut v: u64 = 0;
    for i in 0..digits.len()
        invariant
            2 <= radix <= 36,
            digits@.len() > 0,
            number(s@, radix as nat) == digits_value(digits@, radix as nat),
            v <= max,
            digits_value(digits@.take(i as int), radix as nat) == Some(v as nat),
    {
        let ghost upto = digits@.take(i + 1);
        assert(upto.drop_last() == digits@.take(i as int));
        match digit(digits[i], radix) {
            Some(d) => {
                assert(0 <= v * radix <= 0xFFFF_FFFF * 36) by (nonlinear_arith)
                    requires
                        0 <= v <= 0xFFFF_FFFF,
                        0 <= radix <= 36,
                ;
                v = v * (radix as u64) + d as u64;
                if v > max as u64 {
                    proof {
                        if digits_value(digits@, radix as nat) is Some {
                            lemma_digits_prefix(digits@, radix as nat, i + 1);
                        }
                    }
                    return None;
                }
            },
            None => {
                proof {
                    if digits_value(digits@, radix as nat) is Some {
                        lemma_digits_prefix(digits@, radix as nat, i + 1);
                    }
                }
                return None;
            },
        }
    }
    assert(digits@.take(digits@.len() as int) == digits@);
    Some(v as u32)
}

/// The decimal digits of `n`, without leading zeros.
pub open spec fn decimal_digits(n: nat) -> Seq<char>
    decreases n,
{
    if n < 10 {
        seq![digit_char(n)]
    } else {
        decimal_digits(n / 10).push(digit_char(n % 10))
    }
}

/// `n` in decimal.
pub fn decimal(n: u64) -> (r: String)
    ensures
        r@ == decimal_digits(n as nat),
    decreases n,
{
    let mut r = if n < 10 {
        String::new()
    } else {
        decimal(n / 10)
    };
    r.push((0x30u8 + (n % 10) as u8) as char);
    r
}

/// The two small hexadecimal digits of a byte.
pub open spec fn hex_pair(b: u8) -> Seq<char> {
    seq![digit_char((b / 16) as nat), digit_char((b % 16) as nat)]
}

/// The small hexadecimal digit of value `v`.
pub fn hex_digit(v: u8) -> (c: char)
    requires
        v < 16,
    ensures
        c == digit_char(v as nat),
{
    if v < 10 {
        (0x30 + v) as char
    } else {
        (0x61 + (v - 10)) as char
    }
}

// --- ASCII ---------------------------------------------------------------------

/// Text in ASCII characters, as bytes.
pub open spec fn ascii_bytes(s: Seq<char>) -> Seq<u8> {
    s.map_values(|c: char| c as u8)
}

/// Bytes as the ASCII characters they stand for.
pub open spec fn ascii_text(b: Seq<u8>) -> Seq<char> {
    b.map_values(|c: u8| c as char)
}

/// Whether every byte is an ASCII character.
pub open spec fn all_ascii(b: Seq<u8>) -> bool {
    forall|i: int| 0 <= i < b.len() ==> #[trigger] b[i] < 128
}

/// Whether every byte is an ASCII character.
pub fn is_ascii(b: &[u8]) -> (r: bool)
    ensures
        r == all_ascii(b@),
{
    for i in 0..b.len()
        invariant
            all_ascii(b@.take(i as int)),
    {
        if b[i] >= 128 {
            return false;
        }
        assert forall|j: int| 0 <= j < i + 1 implies #[trigger] b@.take(i + 1)[j] < 128 by {
            if j < i {
                assert(b@.take(i as int)[j] < 128);
            }
        }
    }
    assert(b@.take(b@.len() as int) == b@);
    true
}

/// The characters that ASCII bytes stand for.
pub fn from_ascii(b: &[u8]) -> (s: String)
    requires
        all_ascii(b@),
    ensures
        s@ == ascii_text(b@),
{
    let mut s = String::new();
    for i in 0..b.len()
        invariant
            s@ == ascii_text(b@.take(i as int)),
    {
        s.push(b[i] as char);
        assert(b@.take(i + 1) == b@.take(i as int).push(b@[i as int]));
    }
    assert(b@.take(b@.len() as int) == b@);
    s
}

/// The bytes of a text in ASCII characters.
pub fn to_ascii(s: &str) -> (b: &[u8])
    requires
        vstd::utf8::is_ascii_chars(s@),
    ensures
        b@ == ascii_bytes(s@),
{
    proof {
        vstd::utf8::is_ascii_chars_encode_utf8(s@);
    }
    let b = s.as_bytes();
    assert(b@ == ascii_bytes(s@));
    b
}

// --- laws ----------------------------------------------------------------------

/// Letter case is that of the 26 letters of ASCII: between a small letter and its
/// capital lie 32 places, and no other character changes.
pub proof fn law_letter_case(c: char)
    ensures
        ascii_upper(c) as int == (if 97 <= c as int <= 122 {
            c as int - 32
        } else {
            c as int
        }),
        ascii_lower(c) as int == (if 65 <= c as int <= 90 {
            c as int + 32
        } else {
            c as int
        }),
{
}

/// White space is what Unicode lists as such, character by character.
pub proof fn law_white_space(c: char)
    ensures
        is_white(c) <==> {
            let n = c as int;
            ||| n == 0x09 || n == 0x0A || n == 0x0B || n == 0x0C || n == 0x0D
            ||| n == 0x20 || n == 0x85 || n == 0xA0 || n == 0x1680
            ||| n == 0x2000 || n == 0x2001 || n == 0x2002 || n == 0x2003 || n == 0x2004
            ||| n == 0x2005 || n == 0x2006 || n == 0x2007 || n == 0x2008 || n == 0x2009
            ||| n == 0x200A || n == 0x2028 || n == 0x2029 || n == 0x202F || n == 0x205F
            ||| n == 0x3000
        },
{
}

/// Trimming takes white space off both ends and nothing else: with white space
/// alone before `from` and from `to` on, and none at the two places between which
/// the text stands, what is left is what stands between them.
pub proof fn law_trimmed(s: Seq<char>, from: int, to: int)
    requires
        0 <= from <= to <= s.len(),
        forall|i: int| 0 <= i < from ==> is_white(#[trigger] s[i]),
        forall|i: int| to <= i < s.len() ==> is_white(#[trigger] s[i]),
        from < to ==> !is_white(s[from]) && !is_white(s[to - 1]),
    ensures
        trimmed(s) == s.subrange(from, to),
{
    if from < to {
        lemma_trim_start_at(s, from);
        let body = s.skip(from);
        assert forall|i: int| to - from <= i < body.len() implies is_white(#[trigger] body[i]) by {
            assert(is_white(s[from + i]));
        }
        lemma_trim_end_at(body, to - from);
        assert(body.take(to - from) == s.subrange(from, to));
    } else {
        assert forall|i: int| 0 <= i < s.len() implies is_white(#[trigger] s[i]) by {}
        lemma_trim_start_at(s, s.len() as int);
        assert(trimmed(s) == s.subrange(from, to));
    }
}

/// One text occurs in another where it stands at the front of what is left behind
/// some number of its characters.
pub proof fn law_occurs(hay: Seq<char>, needle: Seq<char>)
    ensures
        occurs(hay, needle) <==> exists|i: int|
            0 <= i <= hay.len() && needle.is_prefix_of(#[trigger] hay.skip(i)),
{
    if occurs(hay, needle) {
        let i = choose|i: int| occurs_at(hay, needle, i);
        assert(hay.skip(i).subrange(0, needle.len() as int) == hay.subrange(
            i,
            i + needle.len(),
        ));
        assert(needle.is_prefix_of(hay.skip(i)));
    }
    if exists|i: int| 0 <= i <= hay.len() && needle.is_prefix_of(#[trigger] hay.skip(i)) {
        let i = choose|i: int| 0 <= i <= hay.len() && needle.is_prefix_of(#[trigger] hay.skip(i));
        assert(hay.skip(i).subrange(0, needle.len() as int) == hay.subrange(
            i,
            i + needle.len(),
        ));
        assert(occurs_at(hay, needle, i));
    }
}

/// A text is cut at its first mark: the two parts and the mark between them make
/// it up, whatever is in the second part; a text without the mark is not cut.
pub proof fn law_split_once(a: Seq<char>, c: char, b: Seq<char>)
    requires
        forall|i: int| 0 <= i < a.len() ==> (#[trigger] a[i]) != c,
    ensures
        split_once(a + seq![c] + b, c) == Some((a, b)),
        split_once(a, c) is None,
{
    let s = a + seq![c] + b;
    assert forall|j: int| 0 <= j < a.len() implies s[j] != c by {
        assert(s[j] == a[j]);
    }
    lemma_find_char_unique(s, c, a.len() as int);
    lemma_find_char_unique(a, c, a.len() as int);
    assert(s.take(a.len() as int) == a);
    assert(s.skip(a.len() as int + 1) == b);
}

/// The pieces of a text are what stands between its marks, in order: a text without
/// a mark is one piece, and what stands before a first mark is the first piece,
/// before the pieces of what stands behind it.
pub proof fn law_pieces(a: Seq<char>, c: char, b: Seq<char>)
    requires
        forall|i: int| 0 <= i < a.len() ==> (#[trigger] a[i]) != c,
    ensures
        pieces(a, c) == seq![a],
        pieces(a + seq![c] + b, c) == seq![a] + pieces(b, c),
{
    law_split_once(a, c, b);
    let s = a + seq![c] + b;
    assert forall|j: int| 0 <= j < a.len() implies s[j] != c by {
        assert(s[j] == a[j]);
    }
    lemma_find_char_unique(s, c, a.len() as int);
    lemma_find_char_unique(a, c, a.len() as int);
}

/// The lines of a text are what stands before its line feeds, in order, each
/// without one carriage return at its end; a last line without a line feed is a
/// line as it stands, and nothing behind the last line feed is none.
pub proof fn law_lines(a: Seq<char>, b: Seq<char>)
    requires
        forall|i: int| 0 <= i < a.len() ==> (#[trigger] a[i]) != '\n',
    ensures
        lines_of(seq![]) == Seq::<Seq<char>>::empty(),
        a.len() > 0 ==> lines_of(a) == seq![a],
        lines_of(a + seq!['\r', '\n'] + b) == seq![a] + lines_of(b),
        a.len() == 0 || a[a.len() - 1] != '\r' ==> lines_of(a + seq!['\n'] + b) == seq![a]
            + lines_of(b),
{
    let s = a + seq!['\n'] + b;
    assert forall|j: int| 0 <= j < a.len() implies s[j] != '\n' by {
        assert(s[j] == a[j]);
    }
    lemma_find_char_unique(s, '\n', a.len() as int);
    lemma_find_char_unique(a, '\n', a.len() as int);
    assert(s.take(a.len() as int) == a);
    assert(s.skip(a.len() as int + 1) == b);
    let t = a + seq!['\r', '\n'] + b;
    let ar = a.push('\r');
    assert forall|j: int| 0 <= j < ar.len() implies t[j] != '\n' by {
        if j < a.len() {
            assert(t[j] == a[j]);
        }
    }
    lemma_find_char_unique(t, '\n', ar.len() as int);
    assert(t.take(ar.len() as int) == ar);
    assert(t.skip(ar.len() as int + 1) == b);
    assert(ar.drop_last() == a);
}

/// A digit's value: `0` to `9` are worth themselves, and the letters go on from ten,
/// small or capital; a digit counts where its value is below the radix.
pub proof fn law_digit_value(c: char, radix: nat)
    ensures
        ({
            let n = c as int;
            let v = if 48 <= n <= 57 {
                n - 48
            } else if 97 <= n <= 122 {
                n - 87
            } else if 65 <= n <= 90 {
                n - 55
            } else {
                radix as int
            };
            &&& v < radix ==> digit_value(c, radix) == Some(v as nat)
            &&& v >= radix ==> digit_value(c, radix) is None
        }),
{
}

/// The hexadecimal digit of each value, and the pair of digits of each byte.
pub proof fn law_hex_digits(v: nat, b: u8)
    requires
        v < 16,
    ensures
        ({
            let table = seq![
                '0',
                '1',
                '2',
                '3',
                '4',
                '5',
                '6',
                '7',
                '8',
                '9',
                'a',
                'b',
                'c',
                'd',
                'e',
                'f',
            ];
            &&& digit_char(v) == table[v as int]
            &&& hex_pair(b).len() == 2
            &&& hex_pair(b)[0] == table[b as int / 16]
            &&& hex_pair(b)[1] == table[b as int % 16]
        }),
{
}

/// A number is read digit by digit from the left: one more digit multiplies what
/// stands before it by the radix and adds its own value. A plus sign may stand
/// before the digits; without a digit, or with anything else among them, there is
/// no number.
pub proof fn law_number(s: Seq<char>, c: char, radix: nat)
    ensures
        number(seq![], radix) is None,
        number(seq!['+'], radix) is None,
        c != '+' ==> number(seq![c], radix) == digit_value(c, radix),
        number(seq!['+', c], radix) == digit_value(c, radix),
        s.len() > 0 && s != seq!['+'] ==> number(s.push(c), radix) == (match (
            number(s, radix),
            digit_value(c, radix),
        ) {
            (Some(v), Some(d)) => Some(v * radix + d),
            _ => None,
        }),
{
    let none = Seq::<char>::empty();
    assert(digits_value(none, radix) == Some(0nat));
    assert(seq![c].drop_last() == none);
    assert(digits_value(seq![c], radix) == digit_value(c, radix)) by {
        assert(0 * radix == 0);
    }
    assert(seq!['+', c].skip(1) == seq![c]);
    assert(seq!['+'].skip(1) == none);
    let t = s.push(c);
    if s.len() > 0 && s != seq!['+'] {
        if s[0] == '+' {
            assert(s.len() > 1) by {
                if s.len() == 1 {
                    assert(s == seq!['+']);
                }
            }
            assert(t.skip(1).drop_last() == s.skip(1));
            assert(t.skip(1).last() == c);
        } else {
            assert(t.drop_last() == s);
        }
    }
}

/// A number counts exactly up to its limit.
pub proof fn law_number_up_to(s: Seq<char>, radix: nat, max: nat, v: nat)
    ensures
        number_up_to(s, radix, max) == Some(v) <==> number(s, radix) == Some(v) && v <= max,
        number_up_to(s, radix, max) is None <==> number(s, radix) is None || number(s, radix)->0
            > max,
{
}

/// A number in decimal is read back as that number, and it is written in the one
/// way that has digits alone and no zero before them.
pub proof fn law_decimal(n: nat)
    ensures
        number(decimal_digits(n), 10) == Some(n),
        decimal_digits(n).len() > 0,
        decimal_digits(n)[0] == '0' ==> n == 0 && decimal_digits(n).len() == 1,
        forall|i: int|
            0 <= i < decimal_digits(n).len() ==> '0' <= #[trigger] decimal_digits(n)[i] <= '9',
    decreases n,
{
    let s = decimal_digits(n);
    if n < 10 {
        law_number(seq![], digit_char(n), 10);
        assert(s == seq![digit_char(n)]);
    } else {
        let t = decimal_digits(n / 10);
        law_decimal(n / 10);
        let c = digit_char(n % 10);
        assert(s == t.push(c));
        assert('0' <= t[0] <= '9');
        assert(t != seq!['+']) by {
            assert(seq!['+'][0] == '+');
        }
        law_number(t, c, 10);
        assert forall|i: int| 0 <= i < s.len() implies '0' <= #[trigger] s[i] <= '9' by {
            if i < t.len() {
                assert(s[i] == t[i]);
            }
        }
    }
}

/// ASCII characters and their bytes are the same numbers, one for one and in order.
pub proof fn law_ascii(s: Seq<char>, b: Seq<u8>)
    ensures
        ascii_bytes(s).len() == s.len(),
        forall|i: int| 0 <= i < s.len() ==> ascii_bytes(s)[i] == (#[trigger] s[i]) as u8,
        ascii_text(b).len() == b.len(),
        forall|i: int| 0 <= i < b.len() ==> ascii_text(b)[i] as int == #[trigger] b[i],
        all_ascii(b) <==> forall|i: int| 0 <= i < b.len() ==> #[trigger] b[i] <= 127,
{
}

/// A list of slices stands for their texts, one for one and in order.
pub proof fn law_texts(v: Seq<&[char]>)
    ensures
        texts(v).len() == v.len(),
        forall|i: int| 0 <= i < v.len() ==> texts(v)[i] == (#[trigger] v[i])@,
{
}

} // verus!
