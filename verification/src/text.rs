//! Text: comparing, trimming, cutting and building strings, character by character.
use vstd::prelude::*;
use vstd::string::*;
use vstd::utf8::*;

verus! {

/// The spec-level contents of a list of strings.
pub open spec fn texts(list: Seq<String>) -> Seq<Seq<char>> {
    list.map_values(|s: String| s@)
}

/// The spec-level contents of an optional string.
pub open spec fn opt_text(o: Option<String>) -> Option<Seq<char>> {
    match o {
        Some(s) => Some(s@),
        None => None,
    }
}

/// An optional string with the same contents.
pub fn copy_opt(o: &Option<String>) -> (r: Option<String>)
    ensures
        opt_text(r) == opt_text(*o),
{
    match o {
        Some(s) => Some(s.clone()),
        None => None,
    }
}

/// A list of strings with the same contents.
pub fn copy_list(list: &Vec<String>) -> (r: Vec<String>)
    ensures
        texts(r@) == texts(list@),
{
    let r = list.clone();
    assert(texts(r@) =~= texts(list@));
    r
}

/// `String::push` appends one character at the end of the string.
pub assume_specification[ String::push ](s: &mut String, c: char)
    ensures
        final(s)@ == old(s)@.push(c),
;

/// The characters with the Unicode property `White_Space`.
pub open spec fn white_space(c: char) -> bool {
    let n = c as u32;
    ||| 0x09 <= n <= 0x0d
    ||| n == 0x20
    ||| n == 0x85
    ||| n == 0xa0
    ||| n == 0x1680
    ||| 0x2000 <= n <= 0x200a
    ||| n == 0x2028
    ||| n == 0x2029
    ||| n == 0x202f
    ||| n == 0x205f
    ||| n == 0x3000
}

/// `char::is_whitespace` tells whether a character has the property `White_Space`.
pub assume_specification[ char::is_whitespace ](c: char) -> (r: bool)
    ensures
        r == white_space(c),
;

/// Whether two strings hold the same characters.
pub fn same_text(a: &str, b: &str) -> (r: bool)
    ensures
        r == (a@ == b@),
{
    let x = a.as_bytes();
    let y = b.as_bytes();
    proof {
        encode_utf8_decode_utf8(a@);
        encode_utf8_decode_utf8(b@);
    }
    if x.len() != y.len() {
        return false;
    }
    let mut i: usize = 0;
    while i < x.len()
        invariant
            i <= x@.len(),
            x@.len() == y@.len(),
            x@ == encode_utf8(a@),
            y@ == encode_utf8(b@),
            forall|j: int| 0 <= j < i ==> x@[j] == y@[j],
        decreases x@.len() - i,
    {
        if x[i] != y[i] {
            return false;
        }
        i = i + 1;
    }
    assert(x@ =~= y@);
    true
}

/// Whether a text is empty or holds white space alone.
pub open spec fn blank(s: Seq<char>) -> bool {
    forall|i: int| 0 <= i < s.len() ==> white_space(#[trigger] s[i])
}

/// Whether a string is empty or holds white space alone.
pub fn is_blank(s: &str) -> (r: bool)
    ensures
        r == blank(s@),
{
    let mut all = true;
    for c in it: s.chars()
        invariant
            it.seq() == s@,
            all == forall|i: int| 0 <= i < it.index() ==> white_space(#[trigger] s@[i]),
    {
        if !c.is_whitespace() {
            all = false;
            assert(!white_space(s@[it.index() as int]));
        }
    }
    all
}

/// A text without the white space at its start.
pub open spec fn trim_left(s: Seq<char>) -> Seq<char>
    decreases s.len(),
{
    if s.len() > 0 && white_space(s[0]) {
        trim_left(s.drop_first())
    } else {
        s
    }
}

/// A text without the white space at its end.
pub open spec fn trim_right(s: Seq<char>) -> Seq<char>
    decreases s.len(),
{
    if s.len() > 0 && white_space(s.last()) {
        trim_right(s.drop_last())
    } else {
        s
    }
}

/// A text without the white space at its two ends.
pub open spec fn trimmed(s: Seq<char>) -> Seq<char> {
    trim_right(trim_left(s))
}

proof fn lemma_trim_left(s: Seq<char>, a: int)
    requires
        0 <= a <= s.len(),
        forall|i: int| 0 <= i < a ==> white_space(#[trigger] s[i]),
        a < s.len() ==> !white_space(s[a]),
    ensures
        trim_left(s) == s.skip(a),
    decreases a,
{
    if a > 0 {
        let t = s.drop_first();
        assert forall|i: int| 0 <= i < a - 1 implies white_space(#[trigger] t[i]) by {
            assert(t[i] == s[i + 1]);
        }
        assert(white_space(s[0]));
        lemma_trim_left(t, a - 1);
        assert(t.skip(a - 1) =~= s.skip(a));
    } else {
        assert(s.skip(0) =~= s);
    }
}

proof fn lemma_trim_right(s: Seq<char>, b: int)
    requires
        0 <= b <= s.len(),
        forall|i: int| b <= i < s.len() ==> white_space(#[trigger] s[i]),
        b > 0 ==> !white_space(s[b - 1]),
    ensures
        trim_right(s) == s.take(b),
    decreases s.len() - b,
{
    if b < s.len() {
        let t = s.drop_last();
        assert(white_space(s[s.len() - 1]));
        lemma_trim_right(t, b);
        assert(t.take(b) =~= s.take(b));
    } else {
        assert(s.take(b) =~= s);
    }
}

/// The string without the white space at its end.
pub fn trim_end_text(s: &str) -> (r: &str)
    ensures
        r@ == trim_right(s@),
{
    let mut end: usize = 0;
    let mut i: usize = 0;
    let n = s.unicode_len();
    for c in it: s.chars()
        invariant
            it.seq() == s@,
            n == s@.len(),
            i == it.index(),
            end <= i <= n,
            forall|j: int| end <= j < i ==> white_space(#[trigger] s@[j]),
            end > 0 ==> !white_space(s@[end - 1]),
    {
        i = i + 1;
        if !c.is_whitespace() {
            end = i;
        }
    }
    proof {
        lemma_trim_right(s@, end as int);
        assert(s@.subrange(0, end as int) =~= s@.take(end as int));
    }
    s.substring_char(0, end)
}

/// The string without the white space at its two ends.
pub fn trim_text(s: &str) -> (r: &str)
    ensures
        r@ == trimmed(s@),
{
    let mut start: usize = 0;
    let mut seen = false;
    let n = s.unicode_len();
    for c in it: s.chars()
        invariant
            it.seq() == s@,
            n == s@.len(),
            start <= it.index(),
            !seen ==> start == it.index(),
            seen ==> start < n && !white_space(s@[start as int]),
            forall|j: int| 0 <= j < start ==> white_space(#[trigger] s@[j]),
    {
        if !seen {
            if c.is_whitespace() {
                start = start + 1;
            } else {
                seen = true;
            }
        }
    }
    proof {
        lemma_trim_left(s@, start as int);
        assert(s@.subrange(start as int, n as int) =~= s@.skip(start as int));
    }
    let rest = s.substring_char(start, n);
    trim_end_text(rest)
}

/// The lower-case form of an ASCII capital letter; every other character stays as it is.
pub open spec fn ascii_lower(c: char) -> char {
    if 'A' <= c <= 'Z' {
        ((c as u8) + 32) as u8 as char
    } else {
        c
    }
}

/// A text with its ASCII capital letters in lower case.
pub open spec fn lowered(s: Seq<char>) -> Seq<char> {
    s.map_values(|c: char| ascii_lower(c))
}

/// The string with its ASCII capital letters in lower case.
pub fn lower_text(s: &str) -> (r: String)
    ensures
        r@ == lowered(s@),
{
    let mut out = String::new();
    for c in it: s.chars()
        invariant
            it.seq() == s@,
            out@ =~= lowered(s@.take(it.index() as int)),
    {
        let low = if 'A' <= c && c <= 'Z' { (c as u8 + 32) as char } else { c };
        out.push(low);
    }
    assert(s@.take(s@.len() as int) =~= s@);
    out
}

/// The first `n` characters of a text, or all of it where it is shorter.
pub open spec fn first_chars(s: Seq<char>, n: nat) -> Seq<char> {
    if s.len() <= n {
        s
    } else {
        s.take(n as int)
    }
}

/// The first `max_chars` characters; never cuts a character in two.
pub fn truncate_utf8(s: &str, max_chars: usize) -> (r: String)
    ensures
        r@ == first_chars(s@, max_chars as nat),
{
    if s.unicode_len() <= max_chars {
        s.to_owned()
    } else {
        let head = s.substring_char(0, max_chars);
        assert(s@.subrange(0, max_chars as int) =~= s@.take(max_chars as int));
        head.to_owned()
    }
}

/// Whether `tail` stands at the end of `s`.
pub open spec fn has_suffix(s: Seq<char>, tail: Seq<char>) -> bool {
    tail.len() <= s.len() && s.skip(s.len() - tail.len()) == tail
}

/// Whether the string `s` ends with `tail`.
pub fn ends_with_text(s: &str, tail: &str) -> (r: bool)
    ensures
        r == has_suffix(s@, tail@),
{
    let n = s.unicode_len();
    let m = tail.unicode_len();
    if m > n {
        return false;
    }
    let end = s.substring_char(n - m, n);
    assert(s@.subrange(n - m, n as int) =~= s@.skip(n - m));
    same_text(end, tail)
}

/// Whether `part` stands somewhere in `s`.
pub open spec fn has_part(s: Seq<char>, part: Seq<char>) -> bool {
    exists|i: int| 0 <= i <= s.len() - part.len() && #[trigger] s.subrange(i, i + part.len()) == part
}

/// Whether the string `s` holds `part`.
pub fn contains_text(s: &str, part: &str) -> (r: bool)
    ensures
        r == has_part(s@, part@),
{
    let n = s.unicode_len();
    let m = part.unicode_len();
    if m > n {
        return false;
    }
    let mut i: usize = 0;
    while i <= n - m
        invariant
            n == s@.len(),
            m == part@.len(),
            m <= n,
            i <= n - m + 1,
            forall|j: int| 0 <= j < i ==> #[trigger] s@.subrange(j, j + m) != part@,
        decreases n - m + 1 - i,
    {
        if same_text(s.substring_char(i, i + m), part) {
            return true;
        }
        if i == n - m {
            return false;
        }
        i = i + 1;
    }
    false
}

/// The part of a text behind its last `/`, or all of it where it holds none.
pub open spec fn last_segment(s: Seq<char>) -> Seq<char>
    decreases s.len(),
{
    if s.len() == 0 || s.last() == '/' {
        Seq::empty()
    } else {
        last_segment(s.drop_last()).push(s.last())
    }
}

proof fn lemma_last_segment(s: Seq<char>, a: int)
    requires
        0 <= a <= s.len(),
        a > 0 ==> s[a - 1] == '/',
        forall|i: int| a <= i < s.len() ==> #[trigger] s[i] != '/',
    ensures
        last_segment(s) == s.skip(a),
    decreases s.len() - a,
{
    if a < s.len() {
        assert(s[s.len() - 1] != '/');
        lemma_last_segment(s.drop_last(), a);
        assert(s.drop_last().skip(a).push(s.last()) =~= s.skip(a));
    } else {
        assert(s.skip(a) =~= Seq::empty());
    }
}

/// The part of a path behind its last `/`.
pub fn last_segment_text(s: &str) -> (r: &str)
    ensures
        r@ == last_segment(s@),
{
    let n = s.unicode_len();
    let mut start: usize = 0;
    let mut i: usize = 0;
    for c in it: s.chars()
        invariant
            it.seq() == s@,
            n == s@.len(),
            i == it.index(),
            start <= i <= n,
            start > 0 ==> s@[start - 1] == '/',
            forall|j: int| start <= j < i ==> #[trigger] s@[j] != '/',
    {
        i = i + 1;
        if c == '/' {
            start = i;
        }
    }
    proof {
        lemma_last_segment(s@, start as int);
        assert(s@.subrange(start as int, n as int) =~= s@.skip(start as int));
    }
    s.substring_char(start, n)
}

/// A character as many times over as asked.
pub open spec fn repeated(c: char, n: nat) -> Seq<char> {
    Seq::new(n, |i: int| c)
}

/// A string of `n` equal characters.
pub fn repeat_char(c: char, n: usize) -> (r: String)
    ensures
        r@ == repeated(c, n as nat),
{
    let mut out = String::new();
    for i in 0..n
        invariant
            out@ =~= repeated(c, i as nat),
    {
        out.push(c);
    }
    out
}

/// A text with spaces behind it up to the given width; a longer one stays as it is.
pub open spec fn padded(s: Seq<char>, width: nat) -> Seq<char> {
    if s.len() >= width {
        s
    } else {
        s + repeated(' ', (width - s.len()) as nat)
    }
}

/// The string with spaces behind it up to the given width.
pub fn pad_right(s: &str, width: usize) -> (r: String)
    ensures
        r@ == padded(s@, width as nat),
{
    let n = s.unicode_len();
    let mut out = s.to_owned();
    if n < width {
        out.append(repeat_char(' ', width - n).as_str());
    }
    out
}

/// The decimal digit of a number below ten.
pub open spec fn digit(n: nat) -> char {
    (('0' as u8) + n) as u8 as char
}

/// A natural number in decimal digits, without leading zeros.
pub open spec fn decimal(n: nat) -> Seq<char>
    decreases n,
{
    if n < 10 {
        seq![digit(n)]
    } else {
        decimal(n / 10).push(digit(n % 10))
    }
}

/// An integer in decimal digits, with a minus sign before a negative one.
pub open spec fn decimal_int(n: int) -> Seq<char> {
    if n < 0 {
        seq!['-'] + decimal((-n) as nat)
    } else {
        decimal(n as nat)
    }
}

/// The decimal digits of a number.
pub fn decimal_text(n: u64) -> (r: String)
    ensures
        r@ == decimal(n as nat),
    decreases n,
{
    let last = (48u8 + (n % 10) as u8) as char;
    if n < 10 {
        let mut out = String::new();
        out.push(last);
        assert(out@ =~= decimal(n as nat));
        out
    } else {
        let mut out = decimal_text(n / 10);
        out.push(last);
        out
    }
}

/// The decimal digits of a signed number, with a minus sign where it is negative.
pub fn decimal_int_text(n: i64) -> (r: String)
    ensures
        r@ == decimal_int(n as int),
{
    if n < 0 {
        let magnitude: u64 = if n == i64::MIN { 0x8000_0000_0000_0000u64 } else { (-n) as u64 };
        let mut out = String::new();
        out.push('-');
        out.append(decimal_text(magnitude).as_str());
        assert(out@ =~= decimal_int(n as int));
        out
    } else {
        decimal_text(n as u64)
    }
}

/// Texts one after the other.
pub open spec fn joined(parts: Seq<Seq<char>>) -> Seq<char>
    decreases parts.len(),
{
    if parts.len() == 0 {
        Seq::empty()
    } else {
        joined(parts.drop_last()) + parts.last()
    }
}

/// Whether a text comes before another: at the first place where they differ it has the
/// smaller character, or it is a proper beginning of the other.
pub open spec fn text_before(a: Seq<char>, b: Seq<char>) -> bool
    decreases a.len(),
{
    if b.len() == 0 {
        false
    } else if a.len() == 0 {
        true
    } else if a[0] != b[0] {
        a[0] < b[0]
    } else {
        text_before(a.drop_first(), b.drop_first())
    }
}

proof fn lemma_text_before_at(a: Seq<char>, b: Seq<char>, i: int)
    requires
        0 <= i <= a.len(),
        i <= b.len(),
        forall|j: int| 0 <= j < i ==> a[j] == b[j],
    ensures
        text_before(a, b) == text_before(a.skip(i), b.skip(i)),
    decreases i,
{
    if i > 0 {
        let x = a.drop_first();
        let y = b.drop_first();
        assert forall|j: int| 0 <= j < i - 1 implies x[j] == y[j] by {
            assert(x[j] == a[j + 1] && y[j] == b[j + 1]);
        }
        assert(a[0] == b[0]);
        lemma_text_before_at(x, y, i - 1);
        assert(x.skip(i - 1) =~= a.skip(i));
        assert(y.skip(i - 1) =~= b.skip(i));
    } else {
        assert(a.skip(0) =~= a);
        assert(b.skip(0) =~= b);
    }
}

/// No text comes before itself.
pub proof fn text_before_irreflexive(a: Seq<char>)
    ensures
        !text_before(a, a),
    decreases a.len(),
{
    if a.len() > 0 {
        text_before_irreflexive(a.drop_first());
    }
}

/// The order of texts is transitive.
pub proof fn text_before_transitive(a: Seq<char>, b: Seq<char>, c: Seq<char>)
    requires
        text_before(a, b),
        text_before(b, c),
    ensures
        text_before(a, c),
    decreases a.len(),
{
    if a.len() > 0 && b.len() > 0 && c.len() > 0 && a[0] == b[0] && b[0] == c[0] {
        text_before_transitive(a.drop_first(), b.drop_first(), c.drop_first());
    }
}

/// Of two different texts one comes before the other.
pub proof fn text_before_total(a: Seq<char>, b: Seq<char>)
    ensures
        a == b || text_before(a, b) || text_before(b, a),
    decreases a.len(),
{
    if a.len() > 0 && b.len() > 0 && a[0] == b[0] {
        text_before_total(a.drop_first(), b.drop_first());
        if a.drop_first() == b.drop_first() {
            assert(a =~= seq![a[0]] + a.drop_first());
            assert(b =~= seq![b[0]] + b.drop_first());
        }
    } else if a.len() == 0 && b.len() == 0 {
        assert(a =~= b);
    }
}

/// Whether the string `a` comes before `b`.
pub fn comes_before(a: &str, b: &str) -> (r: bool)
    ensures
        r == text_before(a@, b@),
{
    let n = a.unicode_len();
    let m = b.unicode_len();
    let mut i: usize = 0;
    while i < n && i < m
        invariant
            n == a@.len(),
            m == b@.len(),
            i <= n,
            i <= m,
            forall|j: int| 0 <= j < i ==> a@[j] == b@[j],
        decreases n - i,
    {
        let x = a.get_char(i);
        let y = b.get_char(i);
        if x != y {
            proof {
                lemma_text_before_at(a@, b@, i as int);
            }
            return x < y;
        }
        i = i + 1;
    }
    proof {
        lemma_text_before_at(a@, b@, i as int);
    }
    i < m
}

/// A part of a text stands between a beginning and an end of it.
pub proof fn parts_stand_between(s: Seq<char>, part: Seq<char>)
    ensures
        has_part(s, part) <==> exists|a: Seq<char>, b: Seq<char>| s == #[trigger] ((a + part) + b),
{
    if has_part(s, part) {
        let i = choose|i: int|
            0 <= i <= s.len() - part.len() && #[trigger] s.subrange(i, i + part.len()) == part;
        let a = s.take(i);
        let b = s.skip(i + part.len());
        assert(s =~= (a + part) + b);
    }
    if exists|a: Seq<char>, b: Seq<char>| s == #[trigger] ((a + part) + b) {
        let (a, b) = choose|a: Seq<char>, b: Seq<char>| s == #[trigger] ((a + part) + b);
        lemma_part_at(s, a, part, b);
    }
}

/// What stands between two texts is a part of the whole.
pub proof fn lemma_part_at(s: Seq<char>, a: Seq<char>, part: Seq<char>, b: Seq<char>)
    requires
        s == (a + part) + b,
    ensures
        has_part(s, part),
{
    let i = a.len() as int;
    assert(s.subrange(i, i + part.len()) =~= part);
}

/// A text that goes on holds what it held.
pub proof fn lemma_still_holds(s: Seq<char>, t: Seq<char>, part: Seq<char>)
    requires
        has_part(s, part),
    ensures
        has_part(s + t, part),
{
    let i = choose|i: int|
        0 <= i <= s.len() - part.len() && #[trigger] s.subrange(i, i + part.len()) == part;
    assert((s + t).subrange(i, i + part.len()) =~= part);
}

/// What is a part of a part is a part of the whole.
pub proof fn parts_of_parts_are_parts(s: Seq<char>, t: Seq<char>, part: Seq<char>)
    requires
        has_part(s, t),
        has_part(t, part),
    ensures
        has_part(s, part),
{
    let i = choose|i: int|
        0 <= i <= s.len() - t.len() && #[trigger] s.subrange(i, i + t.len()) == t;
    let j = choose|j: int|
        0 <= j <= t.len() - part.len() && #[trigger] t.subrange(j, j + part.len()) == part;
    assert(s.subrange(i + j, i + j + part.len()) =~= t.subrange(j, j + part.len()));
}

/// A shortened text is a beginning of the whole, as long as asked for or as the whole.
pub proof fn shortened_texts_are_beginnings(s: Seq<char>, n: nat)
    ensures
        first_chars(s, n).len() == if s.len() < n {
            s.len()
        } else {
            n
        },
        forall|i: int| 0 <= i < first_chars(s, n).len() ==> #[trigger] first_chars(s, n)[i] == s[i],
{
}

/// A text ends with another just where it is that text behind something.
pub proof fn endings_stand_last(s: Seq<char>, tail: Seq<char>)
    ensures
        has_suffix(s, tail) <==> exists|head: Seq<char>| s == #[trigger] (head + tail),
{
    if has_suffix(s, tail) {
        assert(s =~= s.take(s.len() - tail.len()) + tail);
    }
    if exists|head: Seq<char>| s == #[trigger] (head + tail) {
        let head = choose|head: Seq<char>| s == #[trigger] (head + tail);
        assert(s.skip(s.len() - tail.len()) =~= tail);
    }
}

/// The last segment of a path holds no `/`, and what stands before it is nothing or ends in one.
pub proof fn last_segments_hold_no_slash(s: Seq<char>)
    ensures
        !last_segment(s).contains('/'),
        last_segment(s).len() <= s.len(),
        s.skip(s.len() - last_segment(s).len()) == last_segment(s),
        last_segment(s).len() < s.len() ==> s[s.len() - last_segment(s).len() - 1] == '/',
    decreases s.len(),
{
    if s.len() == 0 || s.last() == '/' {
        assert(s.skip(s.len() as int) =~= last_segment(s));
    } else {
        let t = s.drop_last();
        last_segments_hold_no_slash(t);
        let seg = last_segment(t);
        assert(last_segment(s) == seg.push(s.last()));
        assert forall|i: int| 0 <= i < last_segment(s).len() implies last_segment(s)[i] != '/' by {
            if i < seg.len() {
                assert(seg.contains(seg[i]));
            }
        }
        assert(s.skip(s.len() - last_segment(s).len()) =~= last_segment(s)) by {
            assert(t.skip(t.len() - seg.len()) =~= seg);
            assert forall|i: int| 0 <= i < seg.len() implies s[s.len() - last_segment(s).len() + i]
                == seg[i] by {
                assert(t.skip(t.len() - seg.len())[i] == seg[i]);
            }
        }
    }
}

/// A trimmed text has no white space at its ends, and only white space was taken away.
pub proof fn trimming_takes_white_space_alone(s: Seq<char>)
    ensures
        trimmed(s).len() > 0 ==> !white_space(trimmed(s)[0]) && !white_space(trimmed(s).last()),
        exists|a: Seq<char>, b: Seq<char>|
            s == #[trigger] ((a + trimmed(s)) + b) && blank(a) && blank(b),
{
    lemma_trim_left_takes(s);
    lemma_trim_right_takes(trim_left(s));
    let t = trim_left(s);
    let a = s.take(s.len() - t.len());
    let b = t.skip(trimmed(s).len() as int);
    assert(s =~= (a + trimmed(s)) + b) by {
        assert(s =~= a + t);
        assert(t =~= trimmed(s) + b);
    }
    if trimmed(s).len() > 0 {
        assert(trimmed(s)[0] == t[0]);
    }
}

/// A text trimmed at its end does not end in white space, and only white space was taken away.
pub proof fn trimming_the_end_takes_white_space_alone(s: Seq<char>)
    ensures
        trim_right(s).len() > 0 ==> !white_space(trim_right(s).last()),
        exists|b: Seq<char>| s == #[trigger] (trim_right(s) + b) && blank(b),
{
    lemma_trim_right_takes(s);
    let b = s.skip(trim_right(s).len() as int);
    assert(s =~= trim_right(s) + b);
}

proof fn lemma_trim_left_takes(s: Seq<char>)
    ensures
        trim_left(s).len() <= s.len(),
        s.skip(s.len() - trim_left(s).len()) == trim_left(s),
        blank(s.take(s.len() - trim_left(s).len())),
        trim_left(s).len() > 0 ==> !white_space(trim_left(s)[0]),
    decreases s.len(),
{
    if s.len() > 0 && white_space(s[0]) {
        let t = s.drop_first();
        lemma_trim_left_takes(t);
        let k = t.len() - trim_left(t).len();
        assert(s.skip(k + 1) =~= t.skip(k));
        assert forall|i: int| 0 <= i < k + 1 implies white_space(#[trigger] s.take(k + 1)[i]) by {
            if i > 0 {
                assert(white_space(t.take(k)[i - 1]));
            }
        }
    } else {
        assert(s.skip(0) =~= s);
    }
}

proof fn lemma_trim_right_takes(s: Seq<char>)
    ensures
        trim_right(s).len() <= s.len(),
        s.take(trim_right(s).len() as int) == trim_right(s),
        blank(s.skip(trim_right(s).len() as int)),
        trim_right(s).len() > 0 ==> !white_space(trim_right(s).last()),
    decreases s.len(),
{
    if s.len() > 0 && white_space(s.last()) {
        let t = s.drop_last();
        lemma_trim_right_takes(t);
        let k = trim_right(t).len() as int;
        assert(s.take(k) =~= t.take(k));
        assert forall|i: int| 0 <= i < s.len() - k implies white_space(#[trigger] s.skip(k)[i]) by {
            if i < t.len() - k {
                assert(white_space(t.skip(k)[i]));
            }
        }
    } else {
        assert(s.take(s.len() as int) =~= s);
    }
}

/// A text in lower case has its ASCII capitals, and nothing else, 32 code points further on.
pub proof fn lower_case_moves_capitals_alone(s: Seq<char>, i: int)
    requires
        0 <= i < s.len(),
    ensures
        lowered(s).len() == s.len(),
        lowered(s)[i] as u32 == if 65 <= s[i] as u32 <= 90 {
            (s[i] as u32 + 32) as u32
        } else {
            s[i] as u32
        },
{
    let c = s[i];
    assert(lowered(s)[i] == ascii_lower(c));
    if 65 <= c as u32 && c as u32 <= 90 {
        assert('A' <= c && c <= 'Z');
        assert(((c as u8) + 32) as u8 as char as u32 == c as u32 + 32);
    }
}

/// A padded text starts with the text, goes on with spaces alone, and is as wide as asked for
/// unless the text is wider.
pub proof fn padding_adds_spaces_alone(s: Seq<char>, width: nat, i: int)
    ensures
        padded(s, width).len() == if s.len() < width {
            width
        } else {
            s.len()
        },
        0 <= i < s.len() ==> padded(s, width)[i] == s[i],
        s.len() <= i < padded(s, width).len() ==> padded(s, width)[i] == ' ',
{
}

/// The number that digits stand for.
pub open spec fn digits_value(s: Seq<char>) -> nat
    decreases s.len(),
{
    if s.len() == 0 {
        0
    } else {
        (10 * digits_value(s.drop_last()) + (s.last() as int - '0' as int)) as nat
    }
}

/// The digits of a number stand for it, are all digits, and do not start with a zero unless there
/// is but one.
pub proof fn digits_stand_for_their_number(n: nat)
    ensures
        digits_value(decimal(n)) == n,
        decimal(n).len() > 0,
        decimal(n).len() > 1 ==> decimal(n)[0] != '0',
        forall|i: int| 0 <= i < decimal(n).len() ==> '0' <= #[trigger] decimal(n)[i] <= '9',
    decreases n,
{
    lemma_digit((n % 10) as nat);
    if n < 10 {
        lemma_digit(n);
        assert(decimal(n).drop_last() =~= Seq::empty());
        assert(digits_value(decimal(n).drop_last()) == 0);
    } else {
        let m = n / 10;
        digits_stand_for_their_number(m);
        assert(decimal(n).drop_last() =~= decimal(m));
        if decimal(m).len() == 1 {
            assert(decimal(m).drop_last() =~= Seq::empty());
            assert(digits_value(decimal(m).drop_last()) == 0);
            assert(decimal(m)[0] != '0');
        }
    }
}

proof fn lemma_digit(n: nat)
    requires
        n < 10,
    ensures
        digit(n) as int == '0' as int + n,
        '0' <= digit(n) <= '9',
{
    assert(digit(n) as u32 == 48 + n);
}

/// A negative number has a minus sign before the digits of its counterpart.
pub proof fn negative_numbers_have_a_sign(n: int)
    ensures
        n >= 0 ==> digits_value(decimal_int(n)) == n,
        n < 0 ==> decimal_int(n)[0] == '-' && digits_value(decimal_int(n).drop_first()) == -n,
{
    if n >= 0 {
        digits_stand_for_their_number(n as nat);
    } else {
        digits_stand_for_their_number((-n) as nat);
        assert(decimal_int(n).drop_first() =~= decimal((-n) as nat));
    }
}

/// Joined texts hold each of them, and nothing besides.
pub proof fn joined_texts_hold_each(parts: Seq<Seq<char>>, i: int)
    requires
        0 <= i < parts.len(),
    ensures
        has_part(joined(parts), parts[i]),
        joined(parts) == joined(parts.take(i)) + parts[i] + joined(parts.skip(i + 1)),
    decreases parts.len(),
{
    let rest = parts.drop_last();
    if i == parts.len() - 1 {
        assert(parts.take(i) =~= rest);
        assert(parts.skip(i + 1) =~= Seq::empty());
        assert(joined(parts.skip(i + 1)) =~= Seq::empty());
        assert(joined(parts) =~= joined(parts.take(i)) + parts[i] + joined(parts.skip(i + 1)));
    } else {
        joined_texts_hold_each(rest, i);
        assert(rest.take(i) =~= parts.take(i));
        let after = parts.skip(i + 1);
        assert(after.drop_last() =~= rest.skip(i + 1));
        assert(after.last() == parts.last());
        assert(joined(parts) =~= joined(parts.take(i)) + parts[i] + joined(after));
    }
    lemma_part_at(joined(parts), joined(parts.take(i)), parts[i], joined(parts.skip(i + 1)));
}

/// The order of texts goes by the first place where two differ, and puts a text before what it is
/// the beginning of.
pub proof fn texts_are_ordered_by_the_first_difference(a: Seq<char>, b: Seq<char>, i: int)
    requires
        0 <= i <= a.len(),
        i <= b.len(),
        forall|j: int| 0 <= j < i ==> a[j] == b[j],
    ensures
        i < a.len() && i < b.len() && a[i] != b[i] ==> text_before(a, b) == (a[i] < b[i]),
        i == a.len() ==> text_before(a, b) == (a.len() < b.len()),
{
    lemma_text_before_at(a, b, i);
}

/// A repeated character fills a text of its own.
pub proof fn repeated_characters_fill_a_text(c: char, n: nat, i: int)
    ensures
        repeated(c, n).len() == n,
        0 <= i < n ==> repeated(c, n)[i] == c,
{
}

/// A text is blank just where it holds nothing but white space.
pub proof fn blank_texts_hold_white_space_alone(s: Seq<char>)
    ensures
        blank(s) <==> !exists|i: int| 0 <= i < s.len() && !white_space(#[trigger] s[i]),
{
}

} // verus!
