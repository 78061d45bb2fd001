//! Character-level text helpers shared by the sorting and summary code.
//!
//! Texts are modelled by their `Seq<char>` views. Working copies are kept as
//! `Vec<char>`; `chars_of` and `string_of` move between that form and `str` /
//! `String` without changing a character.
use vstd::prelude::*;
use vstd::string::*;

verus! {

// ---------------------------------------------------------------------------
// Character classes
// ---------------------------------------------------------------------------
/// Unicode `White_Space`, the set that `char::is_whitespace` documents.
pub open spec fn is_space(c: char) -> bool {
    let u = c as u32;
    (9 <= u && u <= 13) || u == 32 || u == 0x85 || u == 0xa0 || u == 0x1680 || (0x2000 <= u
        && u <= 0x200a) || u == 0x2028 || u == 0x2029 || u == 0x202f || u == 0x205f || u
        == 0x3000
}

pub open spec fn is_digit(c: char) -> bool {
    '0' <= c && c <= '9'
}

/// The ASCII lower-case form of a character; other characters are kept.
pub open spec fn ascii_lower(c: char) -> char {
    if 'A' <= c && c <= 'Z' {
        ((c as u32) + 32) as char
    } else {
        c
    }
}

/// `str::eq_ignore_ascii_case`: same length and equal after ASCII lower-casing.
pub open spec fn same_ignoring_ascii_case(a: Seq<char>, b: Seq<char>) -> bool {
    a.len() == b.len() && forall|i: int| 0 <= i < a.len() ==> ascii_lower(#[trigger] a[i]) == ascii_lower(b[i])
}

/// Code-point order of two characters (the order of their UTF-8 encodings).
pub open spec fn char_below(a: char, b: char) -> bool {
    (a as u32) < (b as u32)
}

/// Code-point order is a strict total order on characters.
pub proof fn lemma_char_below(a: char, b: char, c: char)
    ensures
        char_below(a, b) || char_below(b, a) || a == b,
        !(char_below(a, b) && char_below(b, a)),
        !char_below(a, a),
        char_below(a, b) && char_below(b, c) ==> char_below(a, c),
{
    if (a as u32) == (b as u32) {
        assert(a == b);
    }
}

pub fn is_whitespace(c: char) -> (r: bool)
    ensures
        r == is_space(c),
{
    let u = c as u32;
    (9 <= u && u <= 13) || u == 32 || u == 0x85 || u == 0xa0 || u == 0x1680 || (0x2000 <= u && u
        <= 0x200a) || u == 0x2028 || u == 0x2029 || u == 0x202f || u == 0x205f || u == 0x3000
}

pub fn is_ascii_digit(c: char) -> (r: bool)
    ensures
        r == is_digit(c),
{
    '0' <= c && c <= '9'
}

pub fn lower_ascii(c: char) -> (r: char)
    ensures
        r == ascii_lower(c),
{
    if 'A' <= c && c <= 'Z' {
        let u = (c as u32) + 32;
        assert(97 <= u <= 122);
        char_from_u32(u)
    } else {
        c
    }
}

/// `char::from_u32` restricted to ASCII letters, where it always succeeds.
fn char_from_u32(u: u32) -> (r: char)
    requires
        97 <= u <= 122,
    ensures
        r == u as char,
{
    let b = u as u8;
    b as char
}

pub fn chars_below(a: char, b: char) -> (r: bool)
    ensures
        r == char_below(a, b),
{
    (a as u32) < (b as u32)
}

pub fn same_ignoring_case(a: &Vec<char>, b: &Vec<char>) -> (r: bool)
    ensures
        r == same_ignoring_ascii_case(a@, b@),
{
    if a.len() != b.len() {
        return false;
    }
    let mut i: usize = 0;
    while i < a.len()
        invariant
            a@.len() == b@.len(),
            i <= a@.len(),
            forall|j: int| 0 <= j < i ==> ascii_lower(#[trigger] a@[j]) == ascii_lower(b@[j]),
        decreases a.len() - i,
    {
        if lower_ascii(a[i]) != lower_ascii(b[i]) {
            return false;
        }
        i += 1;
    }
    true
}

// ---------------------------------------------------------------------------
// Conversions between `str`, `String` and `Vec<char>`
// ---------------------------------------------------------------------------
/// The characters of a text, in order.
pub fn chars_of(s: &str) -> (v: Vec<char>)
    ensures
        v@ == s@,
{
    let n = s.unicode_len();
    let mut v: Vec<char> = Vec::new();
    let mut i: usize = 0;
    while i < n
        invariant
            n == s@.len(),
            i <= n,
            v@ == s@.take(i as int),
        decreases n - i,
    {
        let c = s.get_char(i);
        v.push(c);
        i += 1;
        assert(v@ =~= s@.take(i as int));
    }
    assert(s@.take(n as int) =~= s@);
    v
}

/// `String::push`: appends one character at the end of the string.
#[verifier::external_body]
fn push_char(s: &mut String, c: char)
    ensures
        final(s)@ == old(s)@.push(c),
{
    s.push(c);
}

/// A `String` holding exactly the given characters.
pub fn string_of(v: &Vec<char>) -> (s: String)
    ensures
        s@ == v@,
{
    let mut s = String::new();
    let mut i: usize = 0;
    while i < v.len()
        invariant
            i <= v@.len(),
            s@ == v@.take(i as int),
        decreases v.len() - i,
    {
        push_char(&mut s, v[i]);
        i += 1;
        assert(s@ =~= v@.take(i as int));
    }
    assert(v@.take(v@.len() as int) =~= v@);
    s
}

/// Appends the characters of `t` to `v`.
pub fn push_all(v: &mut Vec<char>, t: &Vec<char>)
    ensures
        final(v)@ == old(v)@ + t@,
{
    let mut i: usize = 0;
    let ghost start = v@;
    while i < t.len()
        invariant
            i <= t@.len(),
            v@ == start + t@.take(i as int),
        decreases t.len() - i,
    {
        v.push(t[i]);
        i += 1;
        assert(v@ =~= start + t@.take(i as int));
    }
    assert(t@.take(t@.len() as int) =~= t@);
}

/// The characters `v[from..to]`.
pub fn slice_of(v: &Vec<char>, from: usize, to: usize) -> (r: Vec<char>)
    requires
        from <= to <= v@.len(),
    ensures
        r@ == v@.subrange(from as int, to as int),
{
    let mut r: Vec<char> = Vec::new();
    let mut i = from;
    while i < to
        invariant
            from <= i <= to,
            to <= v@.len(),
            r@ == v@.subrange(from as int, i as int),
        decreases to - i,
    {
        r.push(v[i]);
        i += 1;
        assert(r@ =~= v@.subrange(from as int, i as int));
    }
    r
}

/// The texts held by a sequence of strings.
pub open spec fn string_views(v: Seq<String>) -> Seq<Seq<char>> {
    Seq::new(v.len(), |i: int| v[i]@)
}

/// The characters of `s` from index `i` on.
pub open spec fn rest_from(s: Seq<char>, i: usize) -> Seq<char> {
    s.skip(i as int)
}

pub proof fn lemma_rest_from_start(s: Seq<char>)
    ensures
        rest_from(s, 0) == s,
{
    assert(s.skip(0) =~= s);
}

pub proof fn lemma_rest_from_step(s: Seq<char>, i: usize)
    requires
        i < s.len(),
        i < usize::MAX,
    ensures
        rest_from(s, i).len() > 0,
        rest_from(s, i)[0] == s[i as int],
        rest_from(s, i).drop_first() == rest_from(s, (i + 1) as usize),
{
    assert(s.skip(i as int).drop_first() =~= s.skip(i + 1));
}

// ---------------------------------------------------------------------------
// Prefixes, suffixes and searching
// ---------------------------------------------------------------------------
pub open spec fn has_prefix(s: Seq<char>, p: Seq<char>) -> bool {
    p.len() <= s.len() && s.take(p.len() as int) == p
}

pub open spec fn has_suffix(s: Seq<char>, p: Seq<char>) -> bool {
    p.len() <= s.len() && s.skip(s.len() - p.len()) == p
}

/// `pat` occurs in `s` starting at index `i`.
pub open spec fn occurs_at(s: Seq<char>, pat: Seq<char>, i: int) -> bool {
    0 <= i && i + pat.len() <= s.len() && s.subrange(i, i + pat.len()) == pat
}

pub fn starts_with(s: &Vec<char>, p: &Vec<char>) -> (r: bool)
    ensures
        r == has_prefix(s@, p@),
{
    if p.len() > s.len() {
        return false;
    }
    let mut i: usize = 0;
    while i < p.len()
        invariant
            p@.len() <= s@.len(),
            i <= p@.len(),
            forall|j: int| 0 <= j < i ==> s@[j] == p@[j],
        decreases p.len() - i,
    {
        if s[i] != p[i] {
            assert(s@.take(p@.len() as int)[i as int] != p@[i as int]);
            return false;
        }
        i += 1;
    }
    assert(s@.take(p@.len() as int) =~= p@);
    true
}

/// Whether `pat` occurs in `s` at index `i`.
pub fn matches_at(s: &Vec<char>, pat: &Vec<char>, i: usize) -> (r: bool)
    ensures
        r == occurs_at(s@, pat@, i as int),
{
    let n = s.len();
    if i > n || pat.len() > n - i {
        return false;
    }
    let mut k: usize = 0;
    while k < pat.len()
        invariant
            n == s@.len(),
            i + pat@.len() <= s@.len(),
            k <= pat@.len(),
            forall|j: int| 0 <= j < k ==> s@[i + j] == pat@[j],
        decreases pat.len() - k,
    {
        if s[i + k] != pat[k] {
            assert(s@.subrange(i as int, i + pat@.len())[k as int] != pat@[k as int]);
            return false;
        }
        k += 1;
    }
    assert(s@.subrange(i as int, i + pat@.len()) =~= pat@);
    true
}

pub fn ends_with(s: &Vec<char>, p: &Vec<char>) -> (r: bool)
    ensures
        r == has_suffix(s@, p@),
{
    if p.len() > s.len() {
        return false;
    }
    let start = s.len() - p.len();
    let r = matches_at(s, p, start);
    assert(s@.subrange(start as int, start + p@.len()) =~= s@.skip(start as int));
    r
}

/// `str::find`: the first index at which `pat` occurs in `s`.
pub fn find(s: &Vec<char>, pat: &Vec<char>) -> (r: Option<usize>)
    ensures
        match r {
            Some(i) => occurs_at(s@, pat@, i as int) && forall|j: int|
                0 <= j < i ==> !#[trigger] occurs_at(s@, pat@, j),
            None => forall|j: int| !#[trigger] occurs_at(s@, pat@, j),
        },
{
    let n = s.len();
    let mut i: usize = 0;
    loop
        invariant
            n == s@.len(),
            i <= n,
            forall|j: int| 0 <= j < i ==> !#[trigger] occurs_at(s@, pat@, j),
        decreases n - i,
    {
        if matches_at(s, pat, i) {
            return Some(i);
        }
        if i == n {
            assert forall|j: int| !#[trigger] occurs_at(s@, pat@, j) by {
                if 0 <= j < i {
                }
            }
            return None;
        }
        i += 1;
    }
}

/// `str::rfind` for one character among the first `end` characters.
pub fn rfind_char(s: &Vec<char>, end: usize, c: char) -> (r: Option<usize>)
    requires
        end <= s@.len(),
    ensures
        match r {
            Some(i) => i < end && s@[i as int] == c && forall|j: int| i < j < end ==> s@[j] != c,
            None => forall|j: int| 0 <= j < end ==> s@[j] != c,
        },
{
    let mut i = end;
    while i > 0
        invariant
            i <= end <= s@.len(),
            forall|j: int| i <= j < end ==> s@[j] != c,
        decreases i,
    {
        if s[i - 1] == c {
            return Some(i - 1);
        }
        i -= 1;
    }
    None
}

// ---------------------------------------------------------------------------
// Splitting, joining and replacing
// ---------------------------------------------------------------------------
/// The texts held by a sequence of character vectors.
pub open spec fn texts(v: Seq<Vec<char>>) -> Seq<Seq<char>> {
    Seq::new(v.len(), |i: int| v[i]@)
}

/// The text held by an optional character vector.
pub open spec fn opt_text(o: Option<Vec<char>>) -> Option<Seq<char>> {
    match o {
        Some(v) => Some(v@),
        None => None,
    }
}

/// `str::split` on one separator character: the pieces between separators,
/// always at least one.
pub open spec fn split_on(s: Seq<char>, sep: char) -> Seq<Seq<char>>
    decreases s.len(),
{
    if s.len() == 0 {
        seq![Seq::<char>::empty()]
    } else {
        let r = split_on(s.drop_last(), sep);
        if s.last() == sep {
            r.push(Seq::<char>::empty())
        } else {
            r.update(r.len() - 1, r.last().push(s.last()))
        }
    }
}

pub proof fn lemma_split_nonempty(s: Seq<char>, sep: char)
    ensures
        split_on(s, sep).len() >= 1,
    decreases s.len(),
{
    if s.len() > 0 {
        lemma_split_nonempty(s.drop_last(), sep);
    }
}

/// Splitting at a character and joining with it gives the text back.
pub proof fn lemma_split_join(s: Seq<char>, sep: char)
    ensures
        join_with(split_on(s, sep), sep) == s,
    decreases s.len(),
{
    if s.len() > 0 {
        let d = s.drop_last();
        lemma_split_join(d, sep);
        lemma_split_nonempty(d, sep);
        let r = split_on(d, sep);
        if s.last() == sep {
            assert(r.push(Seq::<char>::empty()).drop_last() =~= r);
            assert(join_with(r, sep).push(sep) + Seq::<char>::empty() =~= s);
        } else {
            let u = r.update(r.len() - 1, r.last().push(s.last()));
            if r.len() == 1 {
                assert(r.last().push(s.last()) =~= s);
            } else {
                assert(u.drop_last() =~= r.drop_last());
                assert(join_with(r.drop_last(), sep).push(sep) + r.last().push(s.last()) =~= (join_with(
                    r.drop_last(),
                    sep,
                ).push(sep) + r.last()).push(s.last()));
            }
        }
    }
}

/// The first piece of a split of a text that does not start with the
/// separator is not empty.
pub proof fn lemma_split_first_nonempty(s: Seq<char>, sep: char)
    requires
        s.len() > 0,
        s[0] != sep,
    ensures
        split_on(s, sep)[0].len() > 0,
    decreases s.len(),
{
    let d = s.drop_last();
    lemma_split_nonempty(d, sep);
    if d.len() > 0 {
        assert(d[0] == s[0]);
        lemma_split_first_nonempty(d, sep);
    }
}

/// A join of at least two pieces is the first piece, the separator and the
/// join of the rest.
pub proof fn lemma_join_first(parts: Seq<Seq<char>>, sep: char)
    requires
        parts.len() >= 2,
    ensures
        join_with(parts, sep) == parts[0].push(sep) + join_with(parts.skip(1), sep),
    decreases parts.len(),
{
    let d = parts.drop_last();
    let t = parts.skip(1);
    assert(d[0] == parts[0]);
    if parts.len() == 2 {
        assert(join_with(d, sep) == d[0]);
        assert(t.len() == 1);
        assert(join_with(t, sep) == t[0]);
        assert(t[0] == parts.last());
    } else {
        lemma_join_first(d, sep);
        assert(d.skip(1) =~= t.drop_last());
        assert(t.last() == parts.last());
        assert(join_with(t, sep) == join_with(t.drop_last(), sep).push(sep) + t.last());
        assert(parts[0].push(sep) + join_with(d.skip(1), sep).push(sep) + parts.last() =~= parts[0].push(
            sep,
        ) + (join_with(d.skip(1), sep).push(sep) + parts.last()));
    }
}

/// `slice::join` with a one-character separator.
pub open spec fn join_with(parts: Seq<Seq<char>>, sep: char) -> Seq<char>
    decreases parts.len(),
{
    if parts.len() == 0 {
        Seq::<char>::empty()
    } else if parts.len() == 1 {
        parts[0]
    } else {
        join_with(parts.drop_last(), sep).push(sep) + parts.last()
    }
}

/// `str::replace` of one character by another.
pub open spec fn replace_char(s: Seq<char>, from: char, to: char) -> Seq<char> {
    s.map_values(|c: char| if c == from { to } else { c })
}

/// The pieces of `s` between occurrences of `sep`.
pub fn split_chars(s: &Vec<char>, sep: char) -> (parts: Vec<Vec<char>>)
    ensures
        texts(parts@) == split_on(s@, sep),
{
    let mut parts: Vec<Vec<char>> = Vec::new();
    let mut cur: Vec<char> = Vec::new();
    let mut i: usize = 0;
    while i < s.len()
        invariant
            i <= s@.len(),
            split_on(s@.take(i as int), sep) == texts(parts@).push(cur@),
        decreases s.len() - i,
    {
        let c = s[i];
        let ghost before = s@.take(i as int);
        let ghost old_parts = texts(parts@);
        let ghost old_cur = cur@;
        assert(s@.take(i + 1).drop_last() =~= before);
        assert(s@.take(i + 1).last() == c);
        if c == sep {
            let done = cur;
            parts.push(done);
            cur = Vec::new();
            assert(texts(parts@) =~= old_parts.push(old_cur));
        } else {
            cur.push(c);
        }
        i += 1;
        assert(texts(parts@).push(cur@) =~= split_on(s@.take(i as int), sep));
    }
    assert(s@.take(s@.len() as int) =~= s@);
    let ghost old_parts = texts(parts@);
    let ghost old_cur = cur@;
    parts.push(cur);
    assert(texts(parts@) =~= old_parts.push(old_cur));
    parts
}

/// The pieces of `parts` joined by `sep`.
pub fn join_chars(parts: &Vec<Vec<char>>, sep: char) -> (r: Vec<char>)
    ensures
        r@ == join_with(texts(parts@), sep),
{
    let mut r: Vec<char> = Vec::new();
    let mut i: usize = 0;
    while i < parts.len()
        invariant
            i <= parts@.len(),
            r@ == join_with(texts(parts@).take(i as int), sep),
        decreases parts.len() - i,
    {
        let ghost prev = texts(parts@).take(i as int);
        assert(texts(parts@).take(i + 1).drop_last() =~= prev);
        if i > 0 {
            r.push(sep);
        }
        push_all(&mut r, &parts[i]);
        i += 1;
        assert(r@ =~= join_with(texts(parts@).take(i as int), sep));
    }
    assert(texts(parts@).take(parts@.len() as int) =~= texts(parts@));
    r
}

pub fn replace_chars(s: &Vec<char>, from: char, to: char) -> (r: Vec<char>)
    ensures
        r@ == replace_char(s@, from, to),
{
    let mut r: Vec<char> = Vec::new();
    let mut i: usize = 0;
    while i < s.len()
        invariant
            i <= s@.len(),
            r@ == replace_char(s@.take(i as int), from, to),
        decreases s.len() - i,
    {
        if s[i] == from {
            r.push(to);
        } else {
            r.push(s[i]);
        }
        i += 1;
        assert(r@ =~= replace_char(s@.take(i as int), from, to));
    }
    assert(s@.take(s@.len() as int) =~= s@);
    r
}

// ---------------------------------------------------------------------------
// Numbers as text
// ---------------------------------------------------------------------------
pub open spec fn digit_char(d: int) -> char {
    (d + 48) as char
}

/// Decimal digits of a natural number, most significant first.
pub open spec fn decimal(n: nat) -> Seq<char>
    decreases n,
{
    if n < 10 {
        seq![digit_char(n as int)]
    } else {
        decimal(n / 10).push(digit_char((n % 10) as int))
    }
}

/// `i32::to_string`: an optional minus sign and the decimal digits.
pub open spec fn int_text(n: int) -> Seq<char> {
    if n < 0 {
        seq!['-'] + decimal((-n) as nat)
    } else {
        decimal(n as nat)
    }
}

fn decimal_u64(n: u64) -> (r: Vec<char>)
    ensures
        r@ == decimal(n as nat),
    decreases n,
{
    if n < 10 {
        let c = digit_of(n);
        let mut r: Vec<char> = Vec::new();
        r.push(c);
        assert(r@ =~= seq![c]);
        r
    } else {
        let mut r = decimal_u64(n / 10);
        let c = digit_of(n % 10);
        r.push(c);
        r
    }
}

fn digit_of(d: u64) -> (c: char)
    requires
        d < 10,
    ensures
        c == digit_char(d as int),
{
    let b = (d as u8) + 48;
    b as char
}

/// The text of an `i32`, as `to_string` writes it.
pub fn i32_text(n: i32) -> (r: Vec<char>)
    ensures
        r@ == int_text(n as int),
{
    if n < 0 {
        let m = (0i64 - (n as i64)) as u64;
        let d = decimal_u64(m);
        let mut r: Vec<char> = Vec::new();
        r.push('-');
        push_all(&mut r, &d);
        assert(r@ =~= seq!['-'] + decimal((-n) as nat));
        r
    } else {
        decimal_u64(n as u64)
    }
}

/// The value of a run of ASCII digits.
pub open spec fn digits_value(s: Seq<char>) -> int
    decreases s.len(),
{
    if s.len() == 0 {
        0
    } else {
        digits_value(s.drop_last()) * 10 + ((s.last() as u32) - 48)
    }
}

pub open spec fn all_digits(s: Seq<char>) -> bool {
    forall|i: int| 0 <= i < s.len() ==> is_digit(#[trigger] s[i])
}

/// `i32::from_str`: an optional `+` or `-` sign followed by one or more ASCII
/// digits, whose value fits in an `i32`.
pub open spec fn parse_i32_spec(s: Seq<char>) -> Option<i32> {
    let negative = s.len() > 0 && s[0] == '-';
    let body = if s.len() > 0 && (s[0] == '-' || s[0] == '+') {
        s.skip(1)
    } else {
        s
    };
    let v = if negative {
        -digits_value(body)
    } else {
        digits_value(body)
    };
    if body.len() > 0 && all_digits(body) && i32::MIN <= v <= i32::MAX {
        Some(v as i32)
    } else {
        None
    }
}

/// `str::parse::<i32>`, which std documents as accepting an optional sign
/// followed by ASCII digits and refusing values outside the `i32` range.
#[verifier::external_body]
fn parse_i32_str(s: &str) -> (r: Option<i32>)
    ensures
        r == parse_i32_spec(s@),
{
    s.parse::<i32>().ok()
}

pub fn parse_i32(s: &Vec<char>) -> (r: Option<i32>)
    ensures
        r == parse_i32_spec(s@),
{
    let t = string_of(s);
    parse_i32_str(t.as_str())
}

// ---------------------------------------------------------------------------
// Outside text functions
// ---------------------------------------------------------------------------
/// What `str::to_lowercase` gives for a text (full Unicode lower-casing).
pub uninterp spec fn lowercase(s: Seq<char>) -> Seq<char>;

/// `str::to_lowercase`; the contract only names its result.
#[verifier::external_body]
pub(crate) fn to_lowercase(s: &Vec<char>) -> (r: Vec<char>)
    ensures
        r@ == lowercase(s@),
{
    let t: String = s.iter().collect();
    t.to_lowercase().chars().collect()
}

/// What `titlecase::titlecase` gives for a text.
pub uninterp spec fn title_case(s: Seq<char>) -> Seq<char>;

/// `titlecase::titlecase`; the contract only names its result.
#[verifier::external_body]
pub(crate) fn titlecase(s: &Vec<char>) -> (r: Vec<char>)
    ensures
        r@ == title_case(s@),
{
    let t: String = s.iter().collect();
    titlecase::titlecase(&t).chars().collect()
}

/// What `Path::file_stem` gives for a path (`None` where the path has no file
/// name).
pub uninterp spec fn path_file_stem(p: Seq<char>) -> Option<Seq<char>>;

/// `Path::new(p).file_stem()`, taken as UTF-8 text (a stem of a `str` path is
/// always valid UTF-8).
#[verifier::external_body]
pub(crate) fn file_stem(file_path: &Vec<char>) -> (r: Option<Vec<char>>)
    ensures
        opt_text(r) == path_file_stem(file_path@),
{
    let t: String = file_path.iter().collect();
    std::path::Path::new(&t).file_stem().and_then(|s| s.to_str()).map(|s| s.chars().collect())
}

} // verus!
