//! Character-level helpers on strings, with their mathematical models.

use vstd::prelude::*;

verus! {

/// Compares two string slices for equality of their contents
/// (`<str as PartialEq>::eq` of std).
#[verifier::external_body]
pub(crate) fn str_eq(a: &str, b: &str) -> (r: bool)
    ensures
        r == (a@ == b@),
{
    a == b
}

/// The characters of a string slice, in order (`str::chars` of std, collected).
#[verifier::external_body]
pub(crate) fn chars_of(s: &str) -> (r: Vec<char>)
    ensures
        r@ == s@,
{
    s.chars().collect()
}

/// The string made of the given characters, in order (`String::from_iter` of std).
#[verifier::external_body]
pub(crate) fn string_from_chars(v: &[char]) -> (r: String)
    ensures
        r@ == v@,
{
    v.iter().collect()
}

/// Whether `c` has the Unicode `White_Space` property (the characters that
/// `char::is_whitespace`, `str::trim` and `str::split_whitespace` treat as space).
pub open spec fn is_ws(c: char) -> bool {
    ||| ('\u{9}' <= c && c <= '\u{d}')
    ||| c == ' '
    ||| c == '\u{85}'
    ||| c == '\u{a0}'
    ||| c == '\u{1680}'
    ||| ('\u{2000}' <= c && c <= '\u{200a}')
    ||| c == '\u{2028}'
    ||| c == '\u{2029}'
    ||| c == '\u{202f}'
    ||| c == '\u{205f}'
    ||| c == '\u{3000}'
}

/// Whether `c` is in the Unicode general category `Cc` (control codes), the
/// characters that `char::is_control` accepts.
pub open spec fn is_control(c: char) -> bool {
    c <= '\u{1f}' || ('\u{7f}' <= c && c <= '\u{9f}')
}

/// Whether `c` is Unicode white space.
pub fn is_whitespace(c: char) -> (r: bool)
    ensures
        r == is_ws(c),
{
    ('\u{9}' <= c && c <= '\u{d}') || c == ' ' || c == '\u{85}' || c == '\u{a0}' || c == '\u{1680}'
        || ('\u{2000}' <= c && c <= '\u{200a}') || c == '\u{2028}' || c == '\u{2029}'
        || c == '\u{202f}' || c == '\u{205f}' || c == '\u{3000}'
}

/// Whether `c` is a control code.
pub fn is_control_char(c: char) -> (r: bool)
    ensures
        r == is_control(c),
{
    c <= '\u{1f}' || ('\u{7f}' <= c && c <= '\u{9f}')
}

/// `s` without its leading white space.
pub open spec fn trim_start(s: Seq<char>) -> Seq<char>
    decreases s.len(),
{
    if s.len() > 0 && is_ws(s[0]) {
        trim_start(s.drop_first())
    } else {
        s
    }
}

/// `s` without its trailing white space.
pub open spec fn trim_end(s: Seq<char>) -> Seq<char>
    decreases s.len(),
{
    if s.len() > 0 && is_ws(s.last()) {
        trim_end(s.drop_last())
    } else {
        s
    }
}

/// `s` without leading and trailing white space (`str::trim`).
pub open spec fn trim(s: Seq<char>) -> Seq<char> {
    trim_end(trim_start(s))
}

/// Number of bytes of `c` in UTF-8.
pub open spec fn utf8_width(c: char) -> nat {
    if '\u{80}' > c {
        1
    } else if '\u{800}' > c {
        2
    } else if '\u{10000}' > c {
        3
    } else {
        4
    }
}

/// Number of bytes of `s` in UTF-8 (`str::len`).
pub open spec fn utf8_len(s: Seq<char>) -> nat
    decreases s.len(),
{
    if s.len() == 0 {
        0
    } else {
        utf8_len(s.drop_last()) + utf8_width(s.last())
    }
}

/// The longest prefix of `s` whose UTF-8 encoding fits in `max` bytes.
pub open spec fn byte_prefix(s: Seq<char>, max: nat) -> Seq<char>
    decreases s.len(),
{
    if s.len() > 0 && utf8_width(s[0]) <= max {
        seq![s[0]] + byte_prefix(s.drop_first(), (max - utf8_width(s[0])) as nat)
    } else {
        Seq::empty()
    }
}

/// Whether cutting `s` to `max` bytes of UTF-8 cuts at a character boundary
/// (or does not cut at all); `String::truncate` panics otherwise.
pub open spec fn cuts_at_boundary(s: Seq<char>, max: nat) -> bool {
    utf8_len(s) <= max || utf8_len(byte_prefix(s, max)) == max
}

/// `s` cut to at most `max` bytes of UTF-8 (`String::truncate` when longer).
pub open spec fn truncate_bytes(s: Seq<char>, max: nat) -> Seq<char> {
    if utf8_len(s) <= max {
        s
    } else {
        byte_prefix(s, max)
    }
}

/// Whether `c` stays when control characters are removed: all but the
/// control codes other than newline and tab.
pub open spec fn kept_char(c: char) -> bool {
    !is_control(c) || c == '\n' || c == '\t'
}

/// `s` without its control characters, newline and tab excepted.
pub open spec fn without_controls(s: Seq<char>) -> Seq<char>
    decreases s.len(),
{
    if s.len() == 0 {
        s
    } else if kept_char(s.last()) {
        without_controls(s.drop_last()).push(s.last())
    } else {
        without_controls(s.drop_last())
    }
}

/// The HTML escape of one character.
pub open spec fn escape_char(c: char) -> Seq<char> {
    if c == '&' {
        seq!['&', 'a', 'm', 'p', ';']
    } else if c == '<' {
        seq!['&', 'l', 't', ';']
    } else if c == '>' {
        seq!['&', 'g', 't', ';']
    } else if c == '"' {
        seq!['&', 'q', 'u', 'o', 't', ';']
    } else if c == '\'' {
        seq!['&', '#', 'x', '2', '7', ';']
    } else {
        seq![c]
    }
}

/// The HTML escape of the longest start of `s` whose escape fits in `max`
/// bytes of UTF-8: `&`, `<`, `>`, `"` and `'` become entities, and neither a
/// character nor an entity is ever cut.
pub open spec fn escaped_prefix(s: Seq<char>, max: nat) -> Seq<char>
    decreases s.len(),
{
    if s.len() > 0 && utf8_len(escape_char(s[0])) <= max {
        escape_char(s[0]) + escaped_prefix(s.drop_first(), (max - utf8_len(escape_char(s[0]))) as nat)
    } else {
        Seq::empty()
    }
}

/// The sanitized form of a text: trimmed, cut to at most `max` bytes of
/// UTF-8 (at the last character boundary within the limit), without control
/// characters other than newline and tab, then HTML-escaped; the escaped text
/// is cut again where needed so that it too fits in `max` bytes, at the end
/// of a character or entity.
pub open spec fn sanitized_text(s: Seq<char>, max: nat) -> Seq<char> {
    escaped_prefix(without_controls(truncate_bytes(trim(s), max)), max)
}

/// The decimal digit of `d` (`d < 10`).
pub open spec fn digit_char(d: nat) -> char {
    if d == 0 { '0' } else if d == 1 { '1' } else if d == 2 { '2' } else if d == 3 { '3' }
    else if d == 4 { '4' } else if d == 5 { '5' } else if d == 6 { '6' } else if d == 7 { '7' }
    else if d == 8 { '8' } else { '9' }
}

/// The decimal text of `n`, without leading zeros.
pub open spec fn decimal(n: nat) -> Seq<char>
    decreases n,
{
    if n < 10 {
        seq![digit_char(n)]
    } else {
        decimal(n / 10).push(digit_char(n % 10))
    }
}

/// `items` joined with `sep` between consecutive items.
pub open spec fn join(items: Seq<Seq<char>>, sep: Seq<char>) -> Seq<char>
    decreases items.len(),
{
    if items.len() == 0 {
        Seq::empty()
    } else if items.len() == 1 {
        items[0]
    } else {
        join(items.drop_last(), sep) + sep + items.last()
    }
}

proof fn lemma_trim_start_skip(s: Seq<char>, i: int)
    requires
        0 <= i < s.len(),
        is_ws(s[i]),
    ensures
        trim_start(s.subrange(i, s.len() as int)) == trim_start(s.subrange(i + 1, s.len() as int)),
{
    assert(s.subrange(i, s.len() as int).drop_first() =~= s.subrange(i + 1, s.len() as int));
}

/// The characters of `s` without leading and trailing white space.
pub fn trim_chars(s: &Vec<char>) -> (r: Vec<char>)
    ensures
        r@ == trim(s@),
{
    let n = s.len();
    let mut start: usize = 0;
    assert(s@.subrange(0, n as int) =~= s@);
    while start < n && is_whitespace(s[start])
        invariant
            n == s@.len(),
            start <= n,
            trim_start(s@) == trim_start(s@.subrange(start as int, n as int)),
        decreases n - start,
    {
        proof {
            lemma_trim_start_skip(s@, start as int);
        }
        start = start + 1;
    }
    let ghost t = s@.subrange(start as int, n as int);
    assert(trim_start(s@) == t) by {
        if start < n {
            assert(t[0] == s@[start as int]);
        }
    }
    let mut end: usize = n;
    while end > start && is_whitespace(s[end - 1])
        invariant
            n == s@.len(),
            start <= end <= n,
            t == s@.subrange(start as int, n as int),
            trim_end(t) == trim_end(s@.subrange(start as int, end as int)),
        decreases end - start,
    {
        proof {
            let u = s@.subrange(start as int, end as int);
            assert(u.drop_last() =~= s@.subrange(start as int, end - 1));
            assert(u.last() == s@[end - 1]);
        }
        end = end - 1;
    }
    let mut r: Vec<char> = Vec::new();
    let mut k: usize = start;
    while k < end
        invariant
            start <= k <= end <= n,
            n == s@.len(),
            r@ == s@.subrange(start as int, k as int),
        decreases end - k,
    {
        r.push(s[k]);
        proof {
            assert(r@ =~= s@.subrange(start as int, k + 1));
        }
        k = k + 1;
    }
    proof {
        let u = s@.subrange(start as int, end as int);
        assert(r@ == u);
        assert(!(u.len() > 0 && is_ws(u.last())));
    }
    r
}


proof fn lemma_utf8_len_front(s: Seq<char>)
    requires
        s.len() > 0,
    ensures
        utf8_len(s) == utf8_width(s[0]) + utf8_len(s.drop_first()),
    decreases s.len(),
{
    if s.len() > 1 {
        lemma_utf8_len_front(s.drop_last());
        assert(s.drop_last().drop_first() =~= s.drop_first().drop_last());
        assert(s.drop_first().last() == s.last());
        assert(utf8_len(s.drop_first()) == utf8_len(s.drop_first().drop_last()) + utf8_width(
            s.drop_first().last(),
        ));
    } else {
        assert(s.drop_last().len() == 0);
        assert(utf8_len(s) == utf8_len(s.drop_last()) + utf8_width(s.last()));
        assert(s.drop_last().len() == 0);
        assert(s.drop_first().len() == 0);
    }
}

proof fn lemma_byte_prefix_whole(s: Seq<char>, max: nat)
    requires
        utf8_len(s) <= max,
    ensures
        byte_prefix(s, max) == s,
    decreases s.len(),
{
    if s.len() > 0 {
        lemma_utf8_len_front(s);
        lemma_byte_prefix_whole(s.drop_first(), (max - utf8_width(s[0])) as nat);
        assert(seq![s[0]] + s.drop_first() =~= s);
    }
}

/// The UTF-8 length of a prefix grows by the width of the next character.
pub proof fn lemma_utf8_len_take(s: Seq<char>, i: int)
    requires
        0 <= i < s.len(),
    ensures
        utf8_len(s.take(i + 1)) == utf8_len(s.take(i)) + utf8_width(s[i]),
{
    assert(s.take(i + 1).drop_last() =~= s.take(i));
}

/// Number of bytes of `c` in UTF-8 (`char::len_utf8`).
pub fn utf8_width_of(c: char) -> (r: usize)
    ensures
        r == utf8_width(c),
{
    if '\u{80}' > c {
        1
    } else if '\u{800}' > c {
        2
    } else if '\u{10000}' > c {
        3
    } else {
        4
    }
}

/// The characters of `s` cut to at most `max` bytes of UTF-8.
pub fn truncate_chars(s: &Vec<char>, max: usize) -> (r: Vec<char>)
    ensures
        r@ == truncate_bytes(s@, max as nat),
{
    let n = s.len();
    let mut r: Vec<char> = Vec::new();
    let mut i: usize = 0;
    let mut bytes: usize = 0;
    assert(s@.skip(0) =~= s@);
    assert(s@.take(0) =~= Seq::<char>::empty());
    while i < n && utf8_width_of(s[i]) <= max - bytes
        invariant
            n == s@.len(),
            i <= n,
            bytes <= max,
            r@ == s@.take(i as int),
            bytes == utf8_len(s@.take(i as int)),
            byte_prefix(s@, max as nat) == s@.take(i as int) + byte_prefix(
                s@.skip(i as int),
                (max - bytes) as nat,
            ),
        decreases n - i,
    {
        proof {
            lemma_utf8_len_take(s@, i as int);
            let rest = s@.skip(i as int);
            assert(rest[0] == s@[i as int]);
            assert(rest.drop_first() =~= s@.skip(i + 1));
            assert(s@.take(i as int) + seq![s@[i as int]] =~= s@.take(i + 1));
            assert(s@.take(i as int) + (seq![s@[i as int]] + byte_prefix(
                s@.skip(i + 1),
                (max - bytes - utf8_width(s@[i as int])) as nat,
            )) =~= s@.take(i + 1) + byte_prefix(
                s@.skip(i + 1),
                (max - bytes - utf8_width(s@[i as int])) as nat,
            ));
        }
        bytes = bytes + utf8_width_of(s[i]);
        r.push(s[i]);
        i = i + 1;
    }
    proof {
        if i == n {
            assert(s@.skip(i as int).len() == 0);
            assert(s@.take(i as int) =~= s@);
        } else {
            assert(s@.skip(i as int)[0] == s@[i as int]);
        }
        assert(r@ =~= byte_prefix(s@, max as nat));
        if utf8_len(s@) <= max {
            lemma_byte_prefix_whole(s@, max as nat);
        }
    }
    r
}

/// The characters of `s` without control characters other than newline and tab.
pub fn remove_controls(s: &Vec<char>) -> (r: Vec<char>)
    ensures
        r@ == without_controls(s@),
{
    let n = s.len();
    let mut r: Vec<char> = Vec::new();
    let mut i: usize = 0;
    while i < n
        invariant
            n == s@.len(),
            i <= n,
            r@ == without_controls(s@.take(i as int)),
        decreases n - i,
    {
        proof {
            assert(s@.take(i + 1).drop_last() =~= s@.take(i as int));
        }
        let c = s[i];
        if !is_control_char(c) || c == '\n' || c == '\t' {
            r.push(c);
        }
        i = i + 1;
    }
    assert(s@.take(n as int) =~= s@);
    r
}

/// Appends the HTML escape of `c` to `r`.
fn push_escaped(r: &mut Vec<char>, c: char)
    ensures
        final(r)@ == old(r)@ + escape_char(c),
{
    if c == '&' {
        r.push('&'); r.push('a'); r.push('m'); r.push('p'); r.push(';');
    } else if c == '<' {
        r.push('&'); r.push('l'); r.push('t'); r.push(';');
    } else if c == '>' {
        r.push('&'); r.push('g'); r.push('t'); r.push(';');
    } else if c == '"' {
        r.push('&'); r.push('q'); r.push('u'); r.push('o'); r.push('t'); r.push(';');
    } else if c == '\'' {
        r.push('&'); r.push('#'); r.push('x'); r.push('2'); r.push('7'); r.push(';');
    } else {
        r.push(c);
    }
    assert(r@ =~= old(r)@ + escape_char(c));
}

/// Number of bytes of the HTML escape of `c` in UTF-8.
fn escaped_width(c: char) -> (w: usize)
    ensures
        w == utf8_len(escape_char(c)),
{
    proof {
        reveal_with_fuel(utf8_len, 7);
    }
    if c == '&' {
        5
    } else if c == '<' || c == '>' {
        4
    } else if c == '"' || c == '\'' {
        6
    } else {
        utf8_width_of(c)
    }
}

/// The sanitized form of `s` with a limit of `max` bytes (see
/// [`sanitized_text`]).
pub fn sanitize_text(s: &str, max: usize) -> (r: String)
    ensures
        r@ == sanitized_text(s@, max as nat),
{
    let chars = chars_of(s);
    let trimmed = trim_chars(&chars);
    let cut = truncate_chars(&trimmed, max);
    let t = remove_controls(&cut);
    let n = t.len();
    let mut out: Vec<char> = Vec::new();
    let mut budget: usize = max;
    let mut i: usize = 0;
    let mut full = false;
    assert(t@.skip(0) =~= t@);
    assert(out@ + escaped_prefix(t@, max as nat) =~= escaped_prefix(t@, max as nat));
    while i < n && !full
        invariant
            n == t@.len(),
            i <= n,
            t@ == without_controls(truncate_bytes(trim(s@), max as nat)),
            escaped_prefix(t@, max as nat) == out@ + if full {
                Seq::<char>::empty()
            } else {
                escaped_prefix(t@.skip(i as int), budget as nat)
            },
        decreases n - i, if full { 0nat } else { 1nat },
    {
        let c = t[i];
        let w = escaped_width(c);
        let ghost rest = t@.skip(i as int);
        proof {
            assert(rest[0] == c);
            assert(rest.drop_first() =~= t@.skip(i + 1));
        }
        if w <= budget {
            let ghost before = out@;
            push_escaped(&mut out, c);
            assert(before + (escape_char(c) + escaped_prefix(t@.skip(i + 1), (budget - w) as nat)) =~= out@
                + escaped_prefix(t@.skip(i + 1), (budget - w) as nat));
            budget = budget - w;
            i = i + 1;
        } else {
            full = true;
        }
    }
    proof {
        if !full {
            assert(t@.skip(i as int).len() == 0);
        }
        assert(out@ + Seq::<char>::empty() =~= out@);
    }
    string_from_chars(out.as_slice())
}

/// The decimal digit character of `d`.
fn digit_of(d: usize) -> (c: char)
    requires
        d < 10,
    ensures
        c == digit_char(d as nat),
{
    if d == 0 { '0' } else if d == 1 { '1' } else if d == 2 { '2' } else if d == 3 { '3' }
    else if d == 4 { '4' } else if d == 5 { '5' } else if d == 6 { '6' } else if d == 7 { '7' }
    else if d == 8 { '8' } else { '9' }
}

/// The decimal text of `n`.
pub fn decimal_chars(n: usize) -> (r: Vec<char>)
    ensures
        r@ == decimal(n as nat),
    decreases n,
{
    if n < 10 {
        let mut r: Vec<char> = Vec::new();
        r.push(digit_of(n));
        assert(r@ =~= decimal(n as nat));
        r
    } else {
        let mut r = decimal_chars(n / 10);
        r.push(digit_of(n % 10));
        r
    }
}

/// Appends `b` to `a`.
pub fn push_text(a: &mut String, b: &str)
    ensures
        final(a)@ == old(a)@ + b@,
{
    a.append(b);
}


/// `a` followed by `b`, as a new string.
pub(crate) fn concat(a: &str, b: &str) -> (r: String)
    ensures
        r@ == a@ + b@,
{
    let mut r = a.to_owned();
    push_text(&mut r, b);
    r
}

proof fn lemma_utf8_len_take_mono(s: Seq<char>, k: int)
    requires
        0 <= k <= s.len(),
    ensures
        utf8_len(s.take(k)) <= utf8_len(s),
    decreases s.len() - k,
{
    if k < s.len() {
        lemma_utf8_len_take(s, k);
        lemma_utf8_len_take_mono(s, k + 1);
    } else {
        assert(s.take(k) =~= s);
    }
}

/// The lowercase form of a text, by the Unicode `Lowercase` mapping that
/// `str::to_lowercase` applies.
pub uninterp spec fn lowercase(s: Seq<char>) -> Seq<char>;

/// `str::to_lowercase` of std: the lowercase form of `s`.  The result depends
/// on `s` alone; the mapping itself is Unicode's and is left unsaid here.
#[verifier::external_body]
pub(crate) fn to_lowercase(s: &str) -> (r: String)
    ensures
        r@ == lowercase(s@),
{
    s.to_lowercase()
}

/// The words of `s`: its maximal runs of characters other than white space,
/// in order (`str::split_whitespace`).
pub open spec fn words(s: Seq<char>) -> Seq<Seq<char>>
    decreases s.len(),
{
    if s.len() == 0 {
        Seq::empty()
    } else {
        let prev = words(s.drop_last());
        let c = s.last();
        if is_ws(c) {
            prev
        } else if s.len() > 1 && !is_ws(s.drop_last().last()) {
            prev.update(prev.len() - 1, prev.last().push(c))
        } else {
            prev.push(seq![c])
        }
    }
}

/// `s` with its words joined by single spaces: leading and trailing white
/// space dropped and every inner run of white space made one space.
pub open spec fn collapse_ws(s: Seq<char>) -> Seq<char> {
    join(words(s), seq![' '])
}

proof fn lemma_words_shape(s: Seq<char>)
    ensures
        forall|k: int| 0 <= k < words(s).len() ==> words(s)[k].len() > 0,
        s.len() > 0 && !is_ws(s.last()) ==> words(s).len() > 0,
    decreases s.len(),
{
    if s.len() > 0 {
        let d = s.drop_last();
        lemma_words_shape(d);
        let prev = words(d);
        let c = s.last();
        if !is_ws(c) && s.len() > 1 && !is_ws(d.last()) {
            let w = prev.update(prev.len() - 1, prev.last().push(c));
            assert forall|k: int| 0 <= k < w.len() implies w[k].len() > 0 by {
                if k < prev.len() - 1 {
                    assert(w[k] == prev[k]);
                }
            }
        } else if !is_ws(c) {
            let w = prev.push(seq![c]);
            assert forall|k: int| 0 <= k < w.len() implies w[k].len() > 0 by {
                if k < prev.len() {
                    assert(w[k] == prev[k]);
                }
            }
        }
    }
}

proof fn lemma_join_nonempty(w: Seq<Seq<char>>, sep: Seq<char>)
    requires
        forall|k: int| 0 <= k < w.len() ==> w[k].len() > 0,
    ensures
        join(w, sep).len() == 0 <==> w.len() == 0,
    decreases w.len(),
{
    if w.len() > 1 {
        lemma_join_nonempty(w.drop_last(), sep);
    }
}

proof fn lemma_join_extend_last(w: Seq<Seq<char>>, sep: Seq<char>, c: char)
    requires
        w.len() > 0,
    ensures
        join(w.update(w.len() - 1, w.last().push(c)), sep) == join(w, sep).push(c),
{
    let u = w.update(w.len() - 1, w.last().push(c));
    if w.len() > 1 {
        assert(u.drop_last() =~= w.drop_last());
        assert(join(w, sep) + seq![c] =~= join(w, sep).push(c));
        assert(join(u.drop_last(), sep) + sep + u.last() =~= (join(w.drop_last(), sep) + sep
            + w.last()).push(c));
    }
}

proof fn lemma_join_push(w: Seq<Seq<char>>, sep: Seq<char>, x: Seq<char>)
    ensures
        join(w.push(x), sep) == if w.len() == 0 { x } else { join(w, sep) + sep + x },
{
    assert(w.push(x).drop_last() =~= w);
}

/// The words of `s` (`str::split_whitespace`), each as a string.
pub fn split_words(s: &str) -> (r: Vec<String>)
    ensures
        r@.map_values(|w: String| w@) == words(s@),
{
    let c = chars_of(s);
    let n = c.len();
    let mut parts: Vec<Vec<char>> = Vec::new();
    let mut i: usize = 0;
    let mut in_word = false;
    assert(c@.take(0) =~= Seq::<char>::empty());
    assert(parts@.map_values(|w: Vec<char>| w@) =~= Seq::<Seq<char>>::empty());
    while i < n
        invariant
            n == c@.len(),
            c@ == s@,
            i <= n,
            parts@.map_values(|w: Vec<char>| w@) == words(c@.take(i as int)),
            in_word == (i > 0 && !is_ws(c@[i - 1])),
        decreases n - i,
    {
        let ch = c[i];
        let ghost t = c@.take(i + 1);
        let ghost prev = words(c@.take(i as int));
        proof {
            assert(t.drop_last() =~= c@.take(i as int));
            assert(t.last() == ch);
            if i > 0 {
                assert(t.drop_last().last() == c@[i - 1]);
            }
            lemma_words_shape(c@.take(i as int));
        }
        if is_whitespace(ch) {
            in_word = false;
        } else if in_word {
            let mut w = parts.pop().unwrap();
            w.push(ch);
            parts.push(w);
            assert(parts@.map_values(|w: Vec<char>| w@) =~= prev.update(prev.len() - 1, prev.last().push(ch)));
            in_word = true;
        } else {
            let mut w: Vec<char> = Vec::new();
            w.push(ch);
            parts.push(w);
            assert(parts@.map_values(|w: Vec<char>| w@) =~= prev.push(seq![ch]));
            in_word = true;
        }
        i = i + 1;
    }
    assert(c@.take(n as int) =~= c@);
    let ghost ws = parts@.map_values(|w: Vec<char>| w@);
    let mut out: Vec<String> = Vec::new();
    let mut k: usize = 0;
    while k < parts.len()
        invariant
            k <= parts@.len(),
            ws == parts@.map_values(|w: Vec<char>| w@),
            out@.map_values(|w: String| w@) == ws.take(k as int),
        decreases parts@.len() - k,
    {
        let w = string_from_chars(parts[k].as_slice());
        let ghost before = out@.map_values(|w: String| w@);
        assert(w@ == ws[k as int]);
        out.push(w);
        assert(out@.map_values(|w: String| w@) =~= before.push(ws[k as int]));
        assert(ws.take(k + 1) =~= ws.take(k as int).push(ws[k as int]));
        k = k + 1;
    }
    assert(ws.take(parts@.len() as int) =~= ws);
    out
}

/// `s` with its words joined by single spaces.
pub fn collapse_whitespace(s: &str) -> (r: String)
    ensures
        r@ == collapse_ws(s@),
{
    let c = chars_of(s);
    let n = c.len();
    let mut r: Vec<char> = Vec::new();
    let mut i: usize = 0;
    let mut in_word = false;
    assert(c@.take(0) =~= Seq::<char>::empty());
    while i < n
        invariant
            n == c@.len(),
            c@ == s@,
            i <= n,
            r@ == collapse_ws(c@.take(i as int)),
            in_word == (i > 0 && !is_ws(c@[i - 1])),
        decreases n - i,
    {
        let ch = c[i];
        let ghost t = c@.take(i + 1);
        proof {
            assert(t.drop_last() =~= c@.take(i as int));
            assert(t.last() == ch);
            if i > 0 {
                assert(t.drop_last().last() == c@[i - 1]);
            }
            lemma_words_shape(c@.take(i as int));
            lemma_join_nonempty(words(c@.take(i as int)), seq![' ']);
        }
        if is_whitespace(ch) {
            in_word = false;
        } else if in_word {
            proof {
                lemma_words_shape(c@.take(i as int));
                lemma_join_extend_last(words(c@.take(i as int)), seq![' '], ch);
            }
            r.push(ch);
            in_word = true;
        } else {
            proof {
                lemma_join_push(words(c@.take(i as int)), seq![' '], seq![ch]);
            }
            if r.len() > 0 {
                r.push(' ');
            }
            r.push(ch);
            in_word = true;
            assert(r@ =~= collapse_ws(t));
        }
        i = i + 1;
    }
    assert(c@.take(n as int) =~= c@);
    string_from_chars(r.as_slice())
}


/// Appends the character `c` to `s` (`String::push` of std).
#[verifier::external_body]
pub(crate) fn push_char(s: &mut String, c: char)
    ensures
        final(s)@ == old(s)@.push(c),
{
    s.push(c);
}


/// A character that can go into HTML text as it is: no markup character,
/// no quote, no control code other than newline and tab.
pub open spec fn inert_char(c: char) -> bool {
    c != '<' && c != '>' && c != '"' && c != '\'' && kept_char(c)
}

proof fn lemma_without_controls_kept(s: Seq<char>)
    ensures
        forall|i: int| 0 <= i < without_controls(s).len() ==> kept_char(#[trigger] without_controls(s)[i]),
    decreases s.len(),
{
    if s.len() > 0 {
        let d = s.drop_last();
        lemma_without_controls_kept(d);
        let w = without_controls(d);
        if kept_char(s.last()) {
            assert forall|i: int| 0 <= i < w.push(s.last()).len() implies kept_char(#[trigger] w.push(s.last())[i]) by {
                if i < w.len() {
                    assert(w.push(s.last())[i] == w[i]);
                }
            }
        }
    }
}

proof fn lemma_escaped_prefix_inert(s: Seq<char>, max: nat)
    requires
        forall|i: int| 0 <= i < s.len() ==> kept_char(#[trigger] s[i]),
    ensures
        forall|i: int| 0 <= i < escaped_prefix(s, max).len() ==> inert_char(#[trigger] escaped_prefix(s, max)[i]),
    decreases s.len(),
{
    if s.len() > 0 && utf8_len(escape_char(s[0])) <= max {
        let d = s.drop_first();
        assert forall|i: int| 0 <= i < d.len() implies kept_char(#[trigger] d[i]) by {
            assert(d[i] == s[i + 1]);
        }
        let rest = (max - utf8_len(escape_char(s[0]))) as nat;
        lemma_escaped_prefix_inert(d, rest);
        let a = escape_char(s[0]);
        let b = escaped_prefix(d, rest);
        assert(kept_char(s[0]));
        assert forall|i: int| 0 <= i < a.len() implies inert_char(#[trigger] a[i]) by {}
        assert forall|i: int| 0 <= i < (a + b).len() implies inert_char(#[trigger] (a + b)[i]) by {
            if i < a.len() {
                assert((a + b)[i] == a[i]);
            } else {
                assert((a + b)[i] == b[i - a.len()]);
            }
        }
    }
}

/// A sanitized text holds no markup character, no quote and no control code
/// other than newline and tab: it can go into HTML as it is.
pub proof fn lemma_sanitized_text_inert(s: Seq<char>, max: nat)
    ensures
        forall|i: int| 0 <= i < sanitized_text(s, max).len() ==> inert_char(#[trigger] sanitized_text(s, max)[i]),
{
    lemma_without_controls_kept(truncate_bytes(trim(s), max));
    lemma_escaped_prefix_inert(without_controls(truncate_bytes(trim(s), max)), max);
}

proof fn lemma_utf8_len_concat(a: Seq<char>, b: Seq<char>)
    ensures
        utf8_len(a + b) == utf8_len(a) + utf8_len(b),
    decreases b.len(),
{
    if b.len() == 0 {
        assert(a + b =~= a);
    } else {
        lemma_utf8_len_concat(a, b.drop_last());
        assert((a + b).drop_last() =~= a + b.drop_last());
        assert((a + b).last() == b.last());
    }
}

proof fn lemma_escaped_prefix_fits(s: Seq<char>, max: nat)
    ensures
        utf8_len(escaped_prefix(s, max)) <= max,
    decreases s.len(),
{
    if s.len() > 0 && utf8_len(escape_char(s[0])) <= max {
        let rest = (max - utf8_len(escape_char(s[0]))) as nat;
        lemma_escaped_prefix_fits(s.drop_first(), rest);
        lemma_utf8_len_concat(escape_char(s[0]), escaped_prefix(s.drop_first(), rest));
    }
}

/// A sanitized text never takes more than the limit: at most `max` bytes of
/// UTF-8, entities included.
pub proof fn lemma_sanitized_within_limit(s: Seq<char>, max: nat)
    ensures
        utf8_len(sanitized_text(s, max)) <= max,
{
    lemma_escaped_prefix_fits(without_controls(truncate_bytes(trim(s), max)), max);
}

/// A text that is already trimmed, within the limit, and free of control
/// codes (newline and tab aside) and of the characters HTML escapes, comes
/// out of sanitizing unchanged.
pub proof fn lemma_clean_text_unchanged(s: Seq<char>, max: nat)
    requires
        trim(s) == s,
        utf8_len(s) <= max,
        forall|i: int| 0 <= i < s.len() ==> inert_char(#[trigger] s[i]) && s[i] != '&',
    ensures
        sanitized_text(s, max) == s,
{
    lemma_controls_none(s);
    lemma_escape_none(s, max);
}

proof fn lemma_controls_none(s: Seq<char>)
    requires
        forall|i: int| 0 <= i < s.len() ==> kept_char(#[trigger] s[i]),
    ensures
        without_controls(s) == s,
    decreases s.len(),
{
    if s.len() > 0 {
        let d = s.drop_last();
        assert forall|i: int| 0 <= i < d.len() implies kept_char(#[trigger] d[i]) by {
            assert(d[i] == s[i]);
        }
        lemma_controls_none(d);
        assert(d.push(s.last()) =~= s);
    }
}

proof fn lemma_escape_none(s: Seq<char>, max: nat)
    requires
        utf8_len(s) <= max,
        forall|i: int| 0 <= i < s.len() ==> inert_char(#[trigger] s[i]) && s[i] != '&',
    ensures
        escaped_prefix(s, max) == s,
    decreases s.len(),
{
    if s.len() > 0 {
        let d = s.drop_first();
        assert forall|i: int| 0 <= i < d.len() implies inert_char(#[trigger] d[i]) && d[i] != '&' by {
            assert(d[i] == s[i + 1]);
        }
        assert(inert_char(s[0]) && s[0] != '&');
        assert(escape_char(s[0]) == seq![s[0]]);
        let one = seq![s[0]];
        assert(utf8_len(one) == utf8_width(s[0])) by {
            assert(one.drop_last() =~= Seq::<char>::empty());
            assert(one.last() == s[0]);
            assert(utf8_len(one.drop_last()) == 0);
        }
        lemma_utf8_len_front(s);
        lemma_escape_none(d, (max - utf8_width(s[0])) as nat);
        assert(seq![s[0]] + d =~= s);
    }
}

} // verus!
