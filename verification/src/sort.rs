//! The order of note files inside one chapter.
//!
//! A file named `volume.chapter.title.md` (two integers before the title) is
//! "structured" and sorts by its volume and chapter numbers. Every other file
//! gets a "natural" key: its stem with each number written out in ASCII
//! digits, where Chinese numerals count as numbers when they stand before a
//! chapter unit (章, 话, 卷, ...) or stand alone between name boundaries.
//! Structured files come first, then natural keys holding a number (in
//! alphanumeric order), then the rest, which keep their relative order.
use std::cmp::Ordering;
use vstd::prelude::*;
use chinese_number::ChineseToNumber;
use crate::text::{
    chars_of, file_stem, i32_text, int_text, is_ascii_digit, is_digit, is_space, is_whitespace,
    join_chars, join_with, parse_i32, parse_i32_spec, path_file_stem, push_all, slice_of,
    split_chars, split_on, string_of, string_views, texts, char_below, chars_below, rest_from,
    lemma_rest_from_start, lemma_rest_from_step, lemma_char_below,
};

verus! {

// ---------------------------------------------------------------------------
// Character classes
// ---------------------------------------------------------------------------
/// Units that follow a chapter number: 章节節回卷话話篇部集幕折辑輯册冊.
pub open spec fn is_chapter_unit(c: char) -> bool {
    c == '章' || c == '节' || c == '節' || c == '回' || c == '卷' || c == '话' || c == '話' || c
        == '篇' || c == '部' || c == '集' || c == '幕' || c == '折' || c == '辑' || c == '輯' || c
        == '册' || c == '冊'
}

/// Chinese digit characters: 零〇一壹二两贰貳弍三叁參四肆五伍六陆陸七柒八捌九玖.
pub open spec fn is_chinese_digit(c: char) -> bool {
    c == '零' || c == '〇' || c == '一' || c == '壹' || c == '二' || c == '两' || c == '贰' || c
        == '貳' || c == '弍' || c == '三' || c == '叁' || c == '參' || c == '四' || c == '肆' || c
        == '五' || c == '伍' || c == '六' || c == '陆' || c == '陸' || c == '七' || c == '柒' || c
        == '八' || c == '捌' || c == '九' || c == '玖'
}

/// Characters of a Chinese numeral: the digits and 十拾百佰千仟万萬.
pub open spec fn is_chinese_numeral(c: char) -> bool {
    is_chinese_digit(c) || c == '十' || c == '拾' || c == '百' || c == '佰' || c == '千' || c
        == '仟' || c == '万' || c == '萬'
}

/// Characters that may stand before a numeral that starts a name.
pub open spec fn opens_name(c: char) -> bool {
    is_space(c) || c == '-' || c == '_' || c == '.' || c == '(' || c == '['
}

/// Characters that may stand right after a numeral that ends a name part.
pub open spec fn closes_number(c: char) -> bool {
    is_space(c) || c == '-' || c == '_' || c == '.' || c == ')' || c == ']'
}

fn is_chapter_unit_char(c: char) -> (r: bool)
    ensures
        r == is_chapter_unit(c),
{
    c == '章' || c == '节' || c == '節' || c == '回' || c == '卷' || c == '话' || c == '話' || c
        == '篇' || c == '部' || c == '集' || c == '幕' || c == '折' || c == '辑' || c == '輯' || c
        == '册' || c == '冊'
}

fn is_chinese_digit_char(c: char) -> (r: bool)
    ensures
        r == is_chinese_digit(c),
{
    c == '零' || c == '〇' || c == '一' || c == '壹' || c == '二' || c == '两' || c == '贰' || c
        == '貳' || c == '弍' || c == '三' || c == '叁' || c == '參' || c == '四' || c == '肆' || c
        == '五' || c == '伍' || c == '六' || c == '陆' || c == '陸' || c == '七' || c == '柒' || c
        == '八' || c == '捌' || c == '九' || c == '玖'
}

fn is_chinese_number_char(c: char) -> (r: bool)
    ensures
        r == is_chinese_numeral(c),
{
    is_chinese_digit_char(c) || c == '十' || c == '拾' || c == '百' || c == '佰' || c == '千' || c
        == '仟' || c == '万' || c == '萬'
}

// ---------------------------------------------------------------------------
// Runs of digits and numerals
// ---------------------------------------------------------------------------
/// The end of the run of ASCII digits that starts at `i`.
pub open spec fn digit_run_end(t: Seq<char>, i: int) -> int
    decreases t.len() - i,
{
    if 0 <= i < t.len() && is_digit(t[i]) {
        digit_run_end(t, i + 1)
    } else {
        i
    }
}

/// The end of the run of Chinese numeral characters that starts at `i`.
pub open spec fn numeral_run_end(t: Seq<char>, i: int) -> int
    decreases t.len() - i,
{
    if 0 <= i < t.len() && is_chinese_numeral(t[i]) {
        numeral_run_end(t, i + 1)
    } else {
        i
    }
}

proof fn lemma_digit_run(t: Seq<char>, i: int)
    requires
        0 <= i <= t.len(),
    ensures
        i <= digit_run_end(t, i) <= t.len(),
        forall|k: int| i <= k < digit_run_end(t, i) ==> is_digit(#[trigger] t[k]),
    decreases t.len() - i,
{
    if i < t.len() && is_digit(t[i]) {
        lemma_digit_run(t, i + 1);
    }
}

proof fn lemma_numeral_run(t: Seq<char>, i: int)
    requires
        0 <= i <= t.len(),
    ensures
        i <= numeral_run_end(t, i) <= t.len(),
        forall|k: int| i <= k < numeral_run_end(t, i) ==> is_chinese_numeral(#[trigger] t[k]),
    decreases t.len() - i,
{
    if i < t.len() && is_chinese_numeral(t[i]) {
        lemma_numeral_run(t, i + 1);
    }
}

/// The ASCII digits that start at `start`, and the index after them.
fn take_ascii_digits(text: &Vec<char>, start: usize) -> (r: (Vec<char>, usize))
    requires
        start <= text@.len(),
    ensures
        r.1 == digit_run_end(text@, start as int),
        r.0@ == text@.subrange(start as int, r.1 as int),
{
    let mut end = start;
    while end < text.len() && is_ascii_digit(text[end])
        invariant
            start <= end <= text@.len(),
            digit_run_end(text@, start as int) == digit_run_end(text@, end as int),
        decreases text.len() - end,
    {
        end += 1;
    }
    (slice_of(text, start, end), end)
}

/// The Chinese numeral characters that start at `start`, and the index after
/// them.
fn take_chinese_candidate(text: &Vec<char>, start: usize) -> (r: (Vec<char>, usize))
    requires
        start <= text@.len(),
    ensures
        r.1 == numeral_run_end(text@, start as int),
        r.0@ == text@.subrange(start as int, r.1 as int),
{
    let mut end = start;
    while end < text.len() && is_chinese_number_char(text[end])
        invariant
            start <= end <= text@.len(),
            numeral_run_end(text@, start as int) == numeral_run_end(text@, end as int),
        decreases text.len() - end,
    {
        end += 1;
    }
    (slice_of(text, start, end), end)
}

// ---------------------------------------------------------------------------
// Chinese numerals
// ---------------------------------------------------------------------------
#[verifier::external_type_specification]
#[verifier::external_body]
pub struct ExChineseToNumberError(chinese_number::ChineseToNumberError);

/// The digit that `chinese_number` reads for a character in digit-by-digit
/// mode (十 and 拾 are no digits there).
pub open spec fn naive_digit(c: char) -> Option<int> {
    if c == '零' || c == '0' || c == '〇' {
        Some(0)
    } else if c == '一' || c == '壹' || c == '1' {
        Some(1)
    } else if c == '二' || c == '貳' || c == '贰' || c == '貮' || c == '兩' || c == '两' || c
        == '2' {
        Some(2)
    } else if c == '三' || c == '參' || c == '叁' || c == '叄' || c == '参' || c == '3' {
        Some(3)
    } else if c == '四' || c == '肆' || c == '4' {
        Some(4)
    } else if c == '五' || c == '伍' || c == '5' {
        Some(5)
    } else if c == '六' || c == '陸' || c == '陆' || c == '6' {
        Some(6)
    } else if c == '七' || c == '柒' || c == '7' {
        Some(7)
    } else if c == '八' || c == '捌' || c == '8' {
        Some(8)
    } else if c == '九' || c == '玖' || c == '9' {
        Some(9)
    } else {
        None
    }
}

/// The decimal value of a text whose characters all have a `naive_digit`.
pub open spec fn naive_number(s: Seq<char>) -> int
    decreases s.len(),
{
    if s.len() == 0 {
        0
    } else {
        naive_number(s.drop_last()) * 10 + naive_digit(s.last()).unwrap_or(0)
    }
}

/// What `chinese_number` reads, digit by digit, from a text as an `i32`.
pub uninterp spec fn chinese_naive_value(s: Seq<char>) -> Option<i32>;

/// What `chinese_number` reads from a text as an `i32` with the ten-thousand
/// count method (units 十百千万 and larger).
pub uninterp spec fn chinese_grouped_value(s: Seq<char>) -> Option<i32>;

/// `ChineseToNumber::<i32>::to_number_naive`. Besides naming its result, the
/// contract states what the crate's source shows for a non-empty text made
/// of digit characters only: their decimal value, or an error where that
/// value does not fit in an `i32`; and that a text of numeral characters
/// with one that is no digit there (such as 十 or 弍) is refused.
#[verifier::external_body]
fn chinese_to_i32_naive(s: &Vec<char>) -> (r: Result<i32, chinese_number::ChineseToNumberError>)
    ensures
        r is Ok <==> chinese_naive_value(s@) is Some,
        r matches Ok(v) ==> chinese_naive_value(s@) == Some(v),
        s@.len() > 0 && (forall|i: int| 0 <= i < s@.len() ==> (#[trigger] naive_digit(s@[i])) is Some)
            ==> (r is Ok <==> naive_number(s@) <= i32::MAX) && (r matches Ok(v) ==> v
            == naive_number(s@)),
        (forall|i: int| 0 <= i < s@.len() ==> is_chinese_numeral(#[trigger] s@[i])) && (exists|i: int|
            0 <= i < s@.len() && (#[trigger] naive_digit(s@[i])) is None) ==> r is Err,
{
    let t: String = s.iter().collect();
    t.to_number_naive()
}

/// `ChineseToNumber::<i32>::to_number` with `ChineseCountMethod::TenThousand`;
/// the contract only names its result. It is called on Chinese numeral
/// characters only: the crate's units below 個 (such as 角 and 分) can trip a
/// debug assertion there.
#[verifier::external_body]
fn chinese_to_i32_grouped(s: &Vec<char>) -> (r: Result<i32, chinese_number::ChineseToNumberError>)
    requires
        forall|i: int| 0 <= i < s@.len() ==> is_chinese_numeral(#[trigger] s@[i]),
    ensures
        r is Ok <==> chinese_grouped_value(s@) is Some,
        r matches Ok(v) ==> chinese_grouped_value(s@) == Some(v),
{
    let t: String = s.iter().collect();
    t.to_number(chinese_number::ChineseCountMethod::TenThousand)
}

/// The value of a Chinese numeral: digit by digit when it holds digits only,
/// with units otherwise.
pub open spec fn chinese_value(s: Seq<char>) -> Option<i32> {
    if s.len() == 0 {
        None
    } else if forall|i: int| 0 <= i < s.len() ==> is_chinese_digit(#[trigger] s[i]) {
        chinese_naive_value(s)
    } else {
        chinese_grouped_value(s)
    }
}

fn parse_chinese_number(input: &Vec<char>) -> (r: Option<i32>)
    requires
        forall|i: int| 0 <= i < input@.len() ==> is_chinese_numeral(#[trigger] input@[i]),
    ensures
        r == chinese_value(input@),
{
    if input.len() == 0 {
        return None;
    }
    let mut all_digits = true;
    let mut i: usize = 0;
    while i < input.len()
        invariant
            i <= input@.len(),
            all_digits == forall|j: int| 0 <= j < i ==> is_chinese_digit(#[trigger] input@[j]),
        decreases input.len() - i,
    {
        if !is_chinese_digit_char(input[i]) {
            all_digits = false;
        }
        i += 1;
    }
    let parsed = if all_digits {
        chinese_to_i32_naive(input)
    } else {
        chinese_to_i32_grouped(input)
    };
    match parsed {
        Ok(n) => Some(n),
        Err(_) => None,
    }
}

// ---------------------------------------------------------------------------
// Context of a numeral inside a file name
// ---------------------------------------------------------------------------
/// A chapter unit stands at index `i`.
pub open spec fn unit_at(t: Seq<char>, i: int) -> bool {
    0 <= i < t.len() && is_chapter_unit(t[i])
}

/// Everything before `start` is a name boundary character.
pub open spec fn starts_at_boundary(t: Seq<char>, start: int) -> bool {
    forall|k: int| 0 <= k < start ==> opens_name(#[trigger] t[k])
}

/// The text ends at `end`, or a boundary character stands there.
pub open spec fn ends_at_boundary(t: Seq<char>, end: int) -> bool {
    end >= t.len() || closes_number(t[end])
}

/// A Chinese numeral at `start..end` counts as a number.
pub open spec fn numeral_counts(t: Seq<char>, start: int, end: int) -> bool {
    unit_at(t, end) || (starts_at_boundary(t, start) && ends_at_boundary(t, end))
}

fn has_chapter_unit_after(text: &Vec<char>, index: usize) -> (r: bool)
    ensures
        r == unit_at(text@, index as int),
{
    index < text.len() && is_chapter_unit_char(text[index])
}

fn starts_at_filename_boundary(text: &Vec<char>, start: usize) -> (r: bool)
    requires
        start <= text@.len(),
    ensures
        r == starts_at_boundary(text@, start as int),
{
    let mut k: usize = 0;
    while k < start
        invariant
            k <= start <= text@.len(),
            forall|j: int| 0 <= j < k ==> opens_name(#[trigger] text@[j]),
        decreases start - k,
    {
        let c = text[k];
        if !(is_whitespace(c) || c == '-' || c == '_' || c == '.' || c == '(' || c == '[') {
            return false;
        }
        k += 1;
    }
    true
}

fn has_boundary_after(text: &Vec<char>, end: usize) -> (r: bool)
    ensures
        r == ends_at_boundary(text@, end as int),
{
    if end >= text.len() {
        return true;
    }
    let c = text[end];
    is_whitespace(c) || c == '-' || c == '_' || c == '.' || c == ')' || c == ']'
}

fn should_use_chinese_number(text: &Vec<char>, start: usize, end: usize) -> (r: bool)
    requires
        start <= text@.len(),
    ensures
        r == numeral_counts(text@, start as int, end as int),
{
    has_chapter_unit_after(text, end) || (starts_at_filename_boundary(text, start)
        && has_boundary_after(text, end))
}

// ---------------------------------------------------------------------------
// Tokens and natural keys
// ---------------------------------------------------------------------------
/// A number token: its text in the key, the index after it in the name, and
/// whether it counts as a number.
pub struct TokenModel {
    pub value: Seq<char>,
    pub end: int,
    pub sortable: bool,
}

/// The number token that starts at `start`, if a number starts there.
pub open spec fn token_at(t: Seq<char>, start: int) -> Option<TokenModel> {
    let c = t[start];
    if is_digit(c) {
        let e = digit_run_end(t, start);
        Some(TokenModel { value: t.subrange(start, e), end: e, sortable: true })
    } else if !is_chinese_numeral(c) {
        None
    } else {
        let e = numeral_run_end(t, start);
        let candidate = t.subrange(start, e);
        match chinese_value(candidate) {
            Some(n) => if numeral_counts(t, start, e) {
                Some(TokenModel { value: int_text(n as int), end: e, sortable: true })
            } else {
                Some(TokenModel { value: candidate, end: e, sortable: false })
            },
            None => Some(TokenModel { value: candidate, end: e, sortable: false }),
        }
    }
}

/// Drops a `第` that ends the key built so far when a chapter unit follows
/// the number.
pub open spec fn without_chapter_prefix(text: Seq<char>, t: Seq<char>, number_end: int) -> Seq<
    char,
> {
    if text.len() > 0 && text.last() == '第' && unit_at(t, number_end) {
        text.drop_last()
    } else {
        text
    }
}

/// The key text and number flag built from `t[i..]`, given what was built
/// from `t[..i]`.
pub open spec fn key_from(t: Seq<char>, i: int, text: Seq<char>, has: bool) -> (Seq<char>, bool)
    decreases t.len() - i,
{
    if i < 0 || i >= t.len() {
        (text, has)
    } else {
        match token_at(t, i) {
            Some(tok) => if i < tok.end <= t.len() {
                let kept = if tok.sortable {
                    without_chapter_prefix(text, t, tok.end)
                } else {
                    text
                };
                key_from(t, tok.end, kept + tok.value, has || tok.sortable)
            } else {
                (text, has)
            },
            None => key_from(t, i + 1, text.push(t[i]), has),
        }
    }
}

/// The stem of a path, or the whole path where it has none.
pub open spec fn stem_or_self(p: Seq<char>) -> Seq<char> {
    match path_file_stem(p) {
        Some(s) => s,
        None => p,
    }
}

/// The natural key of a file name: its text and whether it holds a number.
pub open spec fn natural_key_of(filename: Seq<char>) -> (Seq<char>, bool) {
    key_from(stem_or_self(filename), 0, Seq::<char>::empty(), false)
}

struct NumberToken {
    value: Vec<char>,
    end: usize,
    is_sortable: bool,
}

struct NaturalKey {
    text: Vec<char>,
    has_number: bool,
}

fn number_token(text: &Vec<char>, start: usize, c: char) -> (r: Option<NumberToken>)
    requires
        start < text@.len(),
        c == text@[start as int],
    ensures
        match r {
            Some(tok) => token_at(text@, start as int) == Some(
                TokenModel { value: tok.value@, end: tok.end as int, sortable: tok.is_sortable },
            ) && start < tok.end <= text@.len(),
            None => token_at(text@, start as int) is None,
        },
{
    if is_ascii_digit(c) {
        let (digits, end) = take_ascii_digits(text, start);
        proof {
            lemma_digit_run(text@, start as int);
            assert(digit_run_end(text@, start as int) == digit_run_end(text@, start + 1));
            lemma_digit_run(text@, start + 1);
        }
        return Some(NumberToken { value: digits, end, is_sortable: true });
    }
    if !is_chinese_number_char(c) {
        return None;
    }
    let (candidate, end) = take_chinese_candidate(text, start);
    proof {
        assert(numeral_run_end(text@, start as int) == numeral_run_end(text@, start + 1));
        lemma_numeral_run(text@, start + 1);
        assert forall|i: int| 0 <= i < candidate@.len() implies is_chinese_numeral(#[trigger] candidate@[i]) by {
            assert(candidate@[i] == text@[start + i]);
        }
    }
    match parse_chinese_number(&candidate) {
        Some(number) => {
            if should_use_chinese_number(text, start, end) {
                Some(NumberToken { value: i32_text(number), end, is_sortable: true })
            } else {
                Some(NumberToken { value: candidate, end, is_sortable: false })
            }
        },
        None => Some(NumberToken { value: candidate, end, is_sortable: false }),
    }
}

fn remove_chapter_prefix_if_needed(sort_text: &mut Vec<char>, stem: &Vec<char>, number_end: usize)
    ensures
        final(sort_text)@ == without_chapter_prefix(old(sort_text)@, stem@, number_end as int),
{
    let n = sort_text.len();
    if n > 0 && sort_text[n - 1] == '第' && has_chapter_unit_after(stem, number_end) {
        sort_text.pop();
    }
}

fn natural_key(filename: &Vec<char>) -> (r: NaturalKey)
    ensures
        (r.text@, r.has_number) == natural_key_of(filename@),
{
    let stem = match file_stem(filename) {
        Some(stem) => stem,
        None => filename.clone(),
    };
    let mut text: Vec<char> = Vec::new();
    let mut has_number = false;
    let mut i: usize = 0;
    while i < stem.len()
        invariant
            stem@ == stem_or_self(filename@),
            i <= stem@.len(),
            key_from(stem@, i as int, text@, has_number) == natural_key_of(filename@),
        decreases stem.len() - i,
    {
        let c = stem[i];
        match number_token(&stem, i, c) {
            Some(token) => {
                if token.is_sortable {
                    has_number = true;
                    remove_chapter_prefix_if_needed(&mut text, &stem, token.end);
                }
                push_all(&mut text, &token.value);
                i = token.end;
            },
            None => {
                text.push(c);
                i += 1;
            },
        }
    }
    NaturalKey { text, has_number }
}

// ---------------------------------------------------------------------------
// Structured names
// ---------------------------------------------------------------------------
/// Volume, chapter and title of a structured name `volume.chapter.title...`:
/// the stem split at dots has at least three parts and the first two are
/// integers; the title is the rest, dots included.
pub open spec fn structured_parts(filename: Seq<char>) -> Option<(i32, i32, Seq<char>)> {
    match path_file_stem(filename) {
        None => None,
        Some(stem) => {
            let parts = split_on(stem, '.');
            if parts.len() < 3 {
                None
            } else {
                match (parse_i32_spec(parts[0]), parse_i32_spec(parts[1])) {
                    (Some(volume), Some(chapter)) => Some(
                        (volume, chapter, join_with(parts.skip(2), '.')),
                    ),
                    _ => None,
                }
            }
        },
    }
}

/// Volume, chapter, title and the name itself of a structured file name, or
/// `None` for any other name.
pub fn parse_filename(filename: &str) -> (r: Option<(i32, i32, String, String)>)
    ensures
        match r {
            Some((volume, chapter, title, name)) => structured_parts(filename@) == Some(
                (volume, chapter, title@),
            ) && name@ == filename@,
            None => structured_parts(filename@) is None,
        },
{
    let name = chars_of(filename);
    match parse_parts(&name) {
        Some((volume, chapter, title)) => Some(
            (volume, chapter, string_of(&title), string_of(&name)),
        ),
        None => None,
    }
}

pub(crate) fn parse_parts(filename: &Vec<char>) -> (r: Option<(i32, i32, Vec<char>)>)
    ensures
        match r {
            Some((volume, chapter, title)) => structured_parts(filename@) == Some(
                (volume, chapter, title@),
            ),
            None => structured_parts(filename@) is None,
        },
{
    let stem = match file_stem(filename) {
        Some(stem) => stem,
        None => return None,
    };
    let parts = split_chars(&stem, '.');
    if parts.len() < 3 {
        return None;
    }
    let volume = match parse_i32(&parts[0]) {
        Some(v) => v,
        None => return None,
    };
    let chapter = match parse_i32(&parts[1]) {
        Some(c) => c,
        None => return None,
    };
    let rest = slice_parts(&parts, 2);
    let title = join_chars(&rest, '.');
    assert(texts(rest@) =~= split_on(stem@, '.').skip(2));
    Some((volume, chapter, title))
}

/// Copies of the pieces from index `from` on.
fn slice_parts(parts: &Vec<Vec<char>>, from: usize) -> (r: Vec<Vec<char>>)
    requires
        from <= parts@.len(),
    ensures
        texts(r@) == texts(parts@).skip(from as int),
{
    let mut r: Vec<Vec<char>> = Vec::new();
    let mut i = from;
    while i < parts.len()
        invariant
            from <= i <= parts@.len(),
            texts(r@) == texts(parts@).subrange(from as int, i as int),
        decreases parts.len() - i,
    {
        let ghost before = texts(r@);
        let x = slice_of(&parts[i], 0, parts[i].len());
        assert(x@ =~= parts@[i as int]@);
        r.push(x);
        assert(texts(r@) =~= before.push(parts@[i as int]@));
        i += 1;
        assert(texts(r@) =~= texts(parts@).subrange(from as int, i as int));
    }
    assert(texts(parts@).subrange(from as int, parts@.len() as int) =~= texts(parts@).skip(
        from as int,
    ));
    r
}

// ---------------------------------------------------------------------------
// Sort keys and the order of paths
// ---------------------------------------------------------------------------
/// The key by which a file name sorts.
pub enum KeyModel {
    Structured(i32, i32),
    Natural(Seq<char>, bool),
}

/// A structured name sorts by volume and chapter, any other by its natural
/// key.
pub open spec fn key_of(filename: Seq<char>) -> KeyModel {
    match structured_parts(filename) {
        Some((volume, chapter, _)) => KeyModel::Structured(volume, chapter),
        None => KeyModel::Natural(natural_key_of(filename).0, natural_key_of(filename).1),
    }
}

enum SortKey {
    Structured(i32, i32),
    Natural(NaturalKey),
}

spec fn key_view(k: SortKey) -> KeyModel {
    match k {
        SortKey::Structured(v, c) => KeyModel::Structured(v, c),
        SortKey::Natural(n) => KeyModel::Natural(n.text@, n.has_number),
    }
}

fn sort_key(filename: &Vec<char>) -> (r: SortKey)
    ensures
        key_view(r) == key_of(filename@),
{
    match parse_parts(filename) {
        Some((vol, chap, _)) => SortKey::Structured(vol, chap),
        None => SortKey::Natural(natural_key(filename)),
    }
}

/// What `alphanumeric_sort::compare_str` answers for two texts.
pub uninterp spec fn alphanumeric_order(a: Seq<char>, b: Seq<char>) -> Ordering;

/// `alphanumeric_sort::compare_str`; the contract only names its result.
#[verifier::external_body]
fn compare_alphanumeric(a: &Vec<char>, b: &Vec<char>) -> (r: Ordering)
    ensures
        r == alphanumeric_order(a@, b@),
{
    let x: String = a.iter().collect();
    let y: String = b.iter().collect();
    alphanumeric_sort::compare_str(&x, &y)
}

/// `str::cmp`: lexicographic order by code point, which is the byte order of
/// UTF-8.
pub open spec fn text_order(a: Seq<char>, b: Seq<char>) -> Ordering
    decreases a.len(),
{
    if a.len() == 0 {
        if b.len() == 0 {
            Ordering::Equal
        } else {
            Ordering::Less
        }
    } else if b.len() == 0 {
        Ordering::Greater
    } else if char_below(a[0], b[0]) {
        Ordering::Less
    } else if char_below(b[0], a[0]) {
        Ordering::Greater
    } else {
        text_order(a.drop_first(), b.drop_first())
    }
}

/// `Ordering::then`: the first answer unless it is `Equal`.
pub open spec fn then_order(first: Ordering, second: Ordering) -> Ordering {
    match first {
        Ordering::Equal => second,
        _ => first,
    }
}

/// The order of `(volume, chapter)` pairs.
pub open spec fn number_order(av: i32, ac: i32, bv: i32, bc: i32) -> Ordering {
    if av < bv {
        Ordering::Less
    } else if av > bv {
        Ordering::Greater
    } else if ac < bc {
        Ordering::Less
    } else if ac > bc {
        Ordering::Greater
    } else {
        Ordering::Equal
    }
}

/// The order of two natural keys: keys with a number first, in alphanumeric
/// order and then by the names; keys without a number are all equal.
pub open spec fn natural_order(
    at: Seq<char>,
    ah: bool,
    bt: Seq<char>,
    bh: bool,
    a: Seq<char>,
    b: Seq<char>,
) -> Ordering {
    if ah && bh {
        then_order(alphanumeric_order(at, bt), text_order(a, b))
    } else if ah {
        Ordering::Less
    } else if bh {
        Ordering::Greater
    } else {
        Ordering::Equal
    }
}

/// The order of two file paths in a chapter.
pub open spec fn path_order(a: Seq<char>, b: Seq<char>) -> Ordering {
    match (key_of(a), key_of(b)) {
        (KeyModel::Structured(av, ac), KeyModel::Structured(bv, bc)) => then_order(
            number_order(av, ac, bv, bc),
            text_order(a, b),
        ),
        (KeyModel::Structured(_, _), KeyModel::Natural(_, _)) => Ordering::Less,
        (KeyModel::Natural(_, _), KeyModel::Structured(_, _)) => Ordering::Greater,
        (KeyModel::Natural(at, ah), KeyModel::Natural(bt, bh)) => natural_order(
            at,
            ah,
            bt,
            bh,
            a,
            b,
        ),
    }
}

/// A path with a natural key that holds a number.
pub open spec fn numbered(p: Seq<char>) -> bool {
    key_of(p) matches KeyModel::Natural(_, has) && has
}

/// A path with a natural key that holds no number.
pub open spec fn plain(p: Seq<char>) -> bool {
    key_of(p) matches KeyModel::Natural(_, has) && !has
}

/// Path `a` belongs after path `b`.
pub open spec fn path_after(a: Seq<char>, b: Seq<char>) -> bool {
    path_order(a, b) == Ordering::Greater
}

pub(crate) fn text_order_of(a: &Vec<char>, b: &Vec<char>) -> (r: Ordering)
    ensures
        r == text_order(a@, b@),
{
    proof {
        lemma_rest_from_start(a@);
        lemma_rest_from_start(b@);
    }
    let mut i: usize = 0;
    loop
        invariant
            i <= a@.len(),
            i <= b@.len(),
            text_order(a@, b@) == text_order(rest_from(a@, i), rest_from(b@, i)),
        decreases a@.len() - i,
    {
        if i == a.len() {
            if i == b.len() {
                return Ordering::Equal;
            } else {
                return Ordering::Less;
            }
        }
        if i == b.len() {
            return Ordering::Greater;
        }
        proof {
            lemma_rest_from_step(a@, i);
            lemma_rest_from_step(b@, i);
        }
        if chars_below(a[i], b[i]) {
            return Ordering::Less;
        }
        if chars_below(b[i], a[i]) {
            return Ordering::Greater;
        }
        i += 1;
    }
}

fn then_with(first: Ordering, second: Ordering) -> (r: Ordering)
    ensures
        r == then_order(first, second),
{
    match first {
        Ordering::Equal => second,
        _ => first,
    }
}

impl NaturalKey {
    fn cmp_path(&self, other: &Self, path: &Vec<char>, other_path: &Vec<char>) -> (r:
        Ordering)
        ensures
            r == natural_order(
                self.text@,
                self.has_number,
                other.text@,
                other.has_number,
                path@,
                other_path@,
            ),
    {
        if self.has_number && other.has_number {
            then_with(
                compare_alphanumeric(&self.text, &other.text),
                text_order_of(path, other_path),
            )
        } else if self.has_number {
            Ordering::Less
        } else if other.has_number {
            Ordering::Greater
        } else {
            Ordering::Equal
        }
    }
}

/// The order of two file paths in a chapter: structured names first, by
/// volume and chapter; then names whose natural key holds a number, in
/// alphanumeric order of the keys; then the rest, all equal to one another.
/// Ties between structured names, and between numbered keys, go by the paths
/// themselves.
pub fn compare_paths(a: &str, b: &str) -> (r: Ordering)
    ensures
        r == path_order(a@, b@),
        key_of(a@) is Structured && key_of(b@) is Natural ==> r == Ordering::Less,
        key_of(a@) is Natural && key_of(b@) is Structured ==> r == Ordering::Greater,
        numbered(a@) && plain(b@) ==> r == Ordering::Less,
        plain(a@) && numbered(b@) ==> r == Ordering::Greater,
        plain(a@) && plain(b@) ==> r == Ordering::Equal,
{
    let av = chars_of(a);
    let bv = chars_of(b);
    compare_path_chars(&av, &bv)
}

fn compare_path_chars(a: &Vec<char>, b: &Vec<char>) -> (r: Ordering)
    ensures
        r == path_order(a@, b@),
{
    match (sort_key(a), sort_key(b)) {
        (SortKey::Structured(a_vol, a_chap), SortKey::Structured(b_vol, b_chap)) => {
            let by_numbers = if a_vol < b_vol {
                Ordering::Less
            } else if a_vol > b_vol {
                Ordering::Greater
            } else if a_chap < b_chap {
                Ordering::Less
            } else if a_chap > b_chap {
                Ordering::Greater
            } else {
                Ordering::Equal
            };
            then_with(by_numbers, text_order_of(a, b))
        },
        (SortKey::Structured(_, _), SortKey::Natural(_)) => Ordering::Less,
        (SortKey::Natural(_), SortKey::Structured(_, _)) => Ordering::Greater,
        (SortKey::Natural(a_key), SortKey::Natural(b_key)) => a_key.cmp_path(&b_key, a, b),
    }
}

// ---------------------------------------------------------------------------
// Sorting
// ---------------------------------------------------------------------------
/// Inserts `x` into `s` after the last element that does not belong after
/// `x` (scanning from the end), as a stable insertion sort does.
pub open spec fn insert_sorted<T>(s: Seq<T>, x: T, after: spec_fn(T, T) -> bool) -> Seq<T>
    decreases s.len(),
{
    if s.len() == 0 {
        seq![x]
    } else if after(s.last(), x) {
        insert_sorted(s.drop_last(), x, after).push(s.last())
    } else {
        s.push(x)
    }
}

/// Stable insertion sort of `s` by the relation "belongs after".
pub open spec fn sort_seq<T>(s: Seq<T>, after: spec_fn(T, T) -> bool) -> Seq<T>
    decreases s.len(),
{
    if s.len() == 0 {
        s
    } else {
        insert_sorted(sort_seq(s.drop_last(), after), s.last(), after)
    }
}

/// Where the scan from the end stops, `insert_sorted` puts the element.
pub proof fn lemma_insert_sorted_at<T>(s: Seq<T>, x: T, after: spec_fn(T, T) -> bool, j: int)
    requires
        0 <= j <= s.len(),
        forall|k: int| j <= k < s.len() ==> after(#[trigger] s[k], x),
        j == 0 || !after(s[j - 1], x),
    ensures
        insert_sorted(s, x, after) == s.insert(j, x),
    decreases s.len(),
{
    if s.len() == 0 {
        assert(s.insert(0, x) =~= seq![x]);
    } else if j == s.len() {
        assert(s.insert(j, x) =~= s.push(x));
    } else {
        assert(after(s[s.len() - 1], x));
        lemma_insert_sorted_at(s.drop_last(), x, after, j);
        assert(s.drop_last().insert(j, x).push(s.last()) =~= s.insert(j, x));
    }
}

/// The relation "path `a` belongs after path `b`".
pub open spec fn paths_after() -> spec_fn(Seq<char>, Seq<char>) -> bool {
    |a: Seq<char>, b: Seq<char>| path_after(a, b)
}

/// Whether path `a` belongs after path `b`.
fn goes_after(a: &str, b: &str) -> (r: bool)
    ensures
        r == path_after(a@, b@),
{
    match compare_paths(a, b) {
        Ordering::Greater => true,
        _ => false,
    }
}

/// The paths in chapter order: a stable insertion sort by `compare_paths`.
pub fn sort_paths(files: Vec<String>) -> (r: Vec<String>)
    ensures
        string_views(r@) == sort_seq(string_views(files@), paths_after()),
{
    let ghost all = string_views(files@);
    let mut rest = files;
    let mut out: Vec<String> = Vec::new();
    let ghost mut k: int = 0;
    while rest.len() > 0
        invariant
            0 <= k <= all.len(),
            string_views(rest@) == all.skip(k),
            string_views(out@) == sort_seq(all.take(k), paths_after()),
        decreases rest.len(),
    {
        let ghost before_rest = string_views(rest@);
        assert(before_rest.len() == rest@.len());
        assert(k < all.len());
        assert(before_rest[0] == all[k]);
        let x = rest.remove(0);
        assert(x@ == before_rest[0]);
        assert(string_views(rest@) =~= before_rest.skip(1));
        assert(before_rest.skip(1) =~= all.skip(k + 1));
        let ghost sorted = string_views(out@);
        let mut j = out.len();
        while j > 0 && goes_after(out[j - 1].as_str(), x.as_str())
            invariant
                j <= out@.len(),
                string_views(out@) == sorted,
                forall|m: int| j <= m < sorted.len() ==> path_after(#[trigger] sorted[m], x@),
            decreases j,
        {
            j -= 1;
        }
        proof {
            lemma_insert_sorted_at(sorted, x@, paths_after(), j as int);
            assert(all.take(k + 1).drop_last() =~= all.take(k));
        }
        out.insert(j, x);
        assert(string_views(out@) =~= sorted.insert(j as int, x@));
        proof {
            k = k + 1;
        }
    }
    assert(all.take(k) =~= all);
    out
}

// ---------------------------------------------------------------------------
// Laws of the insertion sort
// ---------------------------------------------------------------------------
/// No element of `s` belongs after a later one.
pub open spec fn sorted_by<T>(s: Seq<T>, after: spec_fn(T, T) -> bool) -> bool {
    forall|i: int, j: int| 0 <= i < j < s.len() ==> !after(#[trigger] s[i], #[trigger] s[j])
}

/// On the elements of `elems`, "belongs after" is asymmetric and "does not
/// belong after" is transitive: the relation of a total preorder.
pub open spec fn orders_well<T>(after: spec_fn(T, T) -> bool, elems: Seq<T>) -> bool {
    &&& forall|a: T, b: T|
        elems.contains(a) && elems.contains(b) && #[trigger] after(a, b) ==> !after(b, a)
    &&& forall|a: T, b: T, c: T|
        elems.contains(a) && elems.contains(b) && elems.contains(c) && !#[trigger] after(a, b)
            && !#[trigger] after(b, c) ==> !after(a, c)
}

proof fn lemma_insert_members<T>(s: Seq<T>, x: T, after: spec_fn(T, T) -> bool)
    ensures
        insert_sorted(s, x, after).len() == s.len() + 1,
        forall|i: int|
            0 <= i < s.len() + 1 ==> #[trigger] insert_sorted(s, x, after)[i] == x || s.contains(
                insert_sorted(s, x, after)[i],
            ),
    decreases s.len(),
{
    if s.len() > 0 && after(s.last(), x) {
        let d = s.drop_last();
        lemma_insert_members(d, x, after);
        let r = insert_sorted(s, x, after);
        assert forall|i: int| 0 <= i < s.len() + 1 implies #[trigger] r[i] == x || s.contains(r[i]) by {
            if i < s.len() {
                let y = insert_sorted(d, x, after)[i];
                if y != x {
                    let k = choose|k: int| 0 <= k < d.len() && d[k] == y;
                    assert(s[k] == y);
                }
            } else {
                assert(s[s.len() - 1] == s.last());
            }
        }
    } else if s.len() > 0 {
        let r = insert_sorted(s, x, after);
        assert forall|i: int| 0 <= i < s.len() + 1 implies #[trigger] r[i] == x || s.contains(r[i]) by {
            if i < s.len() {
                assert(r[i] == s[i]);
            }
        }
    }
}

pub(crate) proof fn lemma_sort_members<T>(s: Seq<T>, after: spec_fn(T, T) -> bool)
    ensures
        sort_seq(s, after).len() == s.len(),
        forall|i: int| 0 <= i < s.len() ==> s.contains(#[trigger] sort_seq(s, after)[i]),
    decreases s.len(),
{
    if s.len() > 0 {
        let d = s.drop_last();
        lemma_sort_members(d, after);
        let r0 = sort_seq(d, after);
        lemma_insert_members(r0, s.last(), after);
        let r = sort_seq(s, after);
        assert forall|i: int| 0 <= i < s.len() implies s.contains(#[trigger] r[i]) by {
            if r[i] == s.last() {
                assert(s[s.len() - 1] == r[i]);
            } else {
                let k = choose|k: int| 0 <= k < r0.len() && r0[k] == r[i];
                let m = choose|m: int| 0 <= m < d.len() && d[m] == r0[k];
                assert(s[m] == r[i]);
            }
        }
    }
}

/// Inserting keeps every element: the multiset grows by the new one.
pub proof fn law_insert_sorted_multiset<T>(s: Seq<T>, x: T, after: spec_fn(T, T) -> bool)
    ensures
        insert_sorted(s, x, after).to_multiset() == s.to_multiset().insert(x),
    decreases s.len(),
{
    broadcast use vstd::seq_lib::group_to_multiset_ensures;

    if s.len() == 0 {
        assert(seq![x] =~= Seq::<T>::empty().push(x));
    } else if after(s.last(), x) {
        let d = s.drop_last();
        law_insert_sorted_multiset(d, x, after);
        assert(s =~= d.push(s.last()));
        assert(d.to_multiset().insert(x).insert(s.last()) =~= d.to_multiset().insert(s.last()).insert(x));
    }
}

/// The sort is a permutation: it keeps every element as often as it occurs.
pub proof fn law_sort_permutation<T>(s: Seq<T>, after: spec_fn(T, T) -> bool)
    ensures
        sort_seq(s, after).to_multiset() == s.to_multiset(),
    decreases s.len(),
{
    broadcast use vstd::seq_lib::group_to_multiset_ensures;

    if s.len() > 0 {
        let d = s.drop_last();
        law_sort_permutation(d, after);
        law_insert_sorted_multiset(sort_seq(d, after), s.last(), after);
        assert(s =~= d.push(s.last()));
    }
}

proof fn lemma_orders_well_sub<T>(after: spec_fn(T, T) -> bool, big: Seq<T>, small: Seq<T>)
    requires
        orders_well(after, big),
        forall|i: int| 0 <= i < small.len() ==> big.contains(#[trigger] small[i]),
    ensures
        orders_well(after, small),
{
}

proof fn lemma_insert_sorted_sorted<T>(s: Seq<T>, x: T, after: spec_fn(T, T) -> bool)
    requires
        sorted_by(s, after),
        orders_well(after, s.push(x)),
    ensures
        sorted_by(insert_sorted(s, x, after), after),
    decreases s.len(),
{
    let all = s.push(x);
    assert(all[s.len() as int] == x);
    assert forall|i: int| 0 <= i < s.len() implies all.contains(#[trigger] s[i]) by {
        assert(all[i] == s[i]);
    }
    if s.len() == 0 {
    } else if after(s.last(), x) {
        let d = s.drop_last();
        let last = s.last();
        assert(s[s.len() - 1] == last);
        assert forall|i: int| 0 <= i < d.len() + 1 implies all.contains(#[trigger] d.push(x)[i]) by {
            if i < d.len() {
                assert(d.push(x)[i] == s[i]);
            }
        }
        lemma_orders_well_sub(after, all, d.push(x));
        lemma_insert_sorted_sorted(d, x, after);
        lemma_insert_members(d, x, after);
        let r0 = insert_sorted(d, x, after);
        let r = r0.push(last);
        assert(!after(x, last));
        assert forall|i: int, j: int| 0 <= i < j < r.len() implies !after(#[trigger] r[i], #[trigger] r[j]) by {
            if j == r.len() - 1 {
                assert(r[j] == last);
                if r0[i] != x {
                    let k = choose|k: int| 0 <= k < d.len() && d[k] == r0[i];
                    assert(s[k] == r0[i]);
                    assert(!after(s[k], s[s.len() - 1]));
                }
            } else {
                assert(r[i] == r0[i]);
                assert(r[j] == r0[j]);
            }
        }
    } else {
        let r = s.push(x);
        assert forall|i: int, j: int| 0 <= i < j < r.len() implies !after(#[trigger] r[i], #[trigger] r[j]) by {
            if j == s.len() {
                assert(r[i] == s[i]);
                assert(r[j] == x);
                if i < s.len() - 1 {
                    assert(!after(s[i], s[s.len() - 1]));
                }
                assert(!after(s[s.len() - 1], x));
            } else {
                assert(r[i] == s[i]);
                assert(r[j] == s[j]);
            }
        }
    }
}

/// Where "belongs after" orders the elements well (a total preorder), the
/// sort leaves no element before one it belongs after.
pub proof fn law_sort_sorted<T>(s: Seq<T>, after: spec_fn(T, T) -> bool)
    requires
        orders_well(after, s),
    ensures
        sorted_by(sort_seq(s, after), after),
    decreases s.len(),
{
    if s.len() > 0 {
        let d = s.drop_last();
        assert forall|i: int| 0 <= i < d.len() implies s.contains(#[trigger] d[i]) by {
            assert(s[i] == d[i]);
        }
        lemma_orders_well_sub(after, s, d);
        law_sort_sorted(d, after);
        lemma_sort_members(d, after);
        let r0 = sort_seq(d, after);
        let x = s.last();
        assert forall|i: int| 0 <= i < r0.len() + 1 implies s.contains(#[trigger] r0.push(x)[i]) by {
            if i < r0.len() {
                assert(r0.push(x)[i] == r0[i]);
                let k = choose|k: int| 0 <= k < d.len() && d[k] == r0[i];
                assert(s[k] == r0[i]);
            } else {
                assert(s[s.len() - 1] == x);
            }
        }
        lemma_orders_well_sub(after, s, r0.push(x));
        lemma_insert_sorted_sorted(r0, x, after);
    }
}

// ---------------------------------------------------------------------------
// Laws of the text order
// ---------------------------------------------------------------------------
/// The reverse answer.
pub open spec fn flip(o: Ordering) -> Ordering {
    match o {
        Ordering::Less => Ordering::Greater,
        Ordering::Equal => Ordering::Equal,
        Ordering::Greater => Ordering::Less,
    }
}

/// Comparing the other way round gives the reverse answer.
pub proof fn law_text_order_reverse(a: Seq<char>, b: Seq<char>)
    ensures
        text_order(b, a) == flip(text_order(a, b)),
    decreases a.len(),
{
    if a.len() > 0 && b.len() > 0 {
        lemma_char_below(a[0], b[0], a[0]);
        law_text_order_reverse(a.drop_first(), b.drop_first());
    }
}

/// Two texts compare equal exactly when they are the same text.
pub proof fn law_text_order_equal(a: Seq<char>, b: Seq<char>)
    ensures
        (text_order(a, b) == Ordering::Equal) == (a == b),
    decreases a.len(),
{
    if a.len() > 0 && b.len() > 0 {
        lemma_char_below(a[0], b[0], a[0]);
        law_text_order_equal(a.drop_first(), b.drop_first());
        if text_order(a, b) == Ordering::Equal {
            assert(a =~= seq![a[0]] + a.drop_first());
            assert(b =~= seq![b[0]] + b.drop_first());
        }
    } else if a.len() == 0 && b.len() == 0 {
        assert(a =~= b);
    }
}

/// "Not after" is transitive for texts.
pub proof fn law_text_order_transitive(a: Seq<char>, b: Seq<char>, c: Seq<char>)
    requires
        text_order(a, b) != Ordering::Greater,
        text_order(b, c) != Ordering::Greater,
    ensures
        text_order(a, c) != Ordering::Greater,
    decreases a.len(),
{
    if a.len() > 0 && b.len() > 0 && c.len() > 0 {
        lemma_char_below(a[0], b[0], c[0]);
        lemma_char_below(b[0], c[0], a[0]);
        lemma_char_below(a[0], c[0], b[0]);
        lemma_char_below(c[0], a[0], b[0]);
        if a[0] == b[0] && b[0] == c[0] {
            law_text_order_transitive(a.drop_first(), b.drop_first(), c.drop_first());
        }
    }
}

/// The text order is lexicographic from the front: where two texts agree on
/// their first `i` characters and differ at index `i`, the one with the
/// smaller code point there comes first.
pub proof fn law_text_order_first_difference(a: Seq<char>, b: Seq<char>, i: int)
    requires
        0 <= i < a.len(),
        i < b.len(),
        a.take(i) == b.take(i),
        char_below(a[i], b[i]),
    ensures
        text_order(a, b) == Ordering::Less,
    decreases i,
{
    if i > 0 {
        assert(a[0] == a.take(i)[0]);
        assert(b[0] == b.take(i)[0]);
        assert(a.drop_first().take(i - 1) =~= a.take(i).drop_first());
        assert(b.drop_first().take(i - 1) =~= b.take(i).drop_first());
        law_text_order_first_difference(a.drop_first(), b.drop_first(), i - 1);
    }
}

/// A proper prefix comes before the longer text.
pub proof fn law_text_order_prefix(a: Seq<char>, b: Seq<char>)
    requires
        a.len() < b.len(),
        a.is_prefix_of(b),
    ensures
        text_order(a, b) == Ordering::Less,
    decreases a.len(),
{
    if a.len() > 0 {
        assert(a[0] == b[0]);
        assert(a.drop_first().is_prefix_of(b.drop_first()));
        law_text_order_prefix(a.drop_first(), b.drop_first());
    }
}

// ---------------------------------------------------------------------------
// Laws of the path order
// ---------------------------------------------------------------------------
proof fn lemma_path_pair(a: Seq<char>, b: Seq<char>)
    requires
        !numbered(a),
        !numbered(b),
    ensures
        path_order(b, a) == flip(path_order(a, b)),
{
    law_text_order_reverse(a, b);
}

proof fn lemma_path_triple(a: Seq<char>, b: Seq<char>, c: Seq<char>)
    requires
        !numbered(a),
        !numbered(b),
        !numbered(c),
        path_order(a, b) != Ordering::Greater,
        path_order(b, c) != Ordering::Greater,
    ensures
        path_order(a, c) != Ordering::Greater,
{
    if key_of(a) is Structured && key_of(b) is Structured && key_of(c) is Structured {
        if text_order(a, b) != Ordering::Greater && text_order(b, c) != Ordering::Greater {
            law_text_order_transitive(a, b, c);
        }
    }
}

/// The alphanumeric answer for the natural keys of two paths.
pub open spec fn key_order(a: Seq<char>, b: Seq<char>) -> Ordering {
    alphanumeric_order(natural_key_of(a).0, natural_key_of(b).0)
}

/// On the numbered paths of `s`, the alphanumeric order of their keys acts
/// as a total preorder: the other way round it gives the reverse answer, and
/// "not greater" is transitive.
pub open spec fn keys_order_well(s: Seq<Seq<char>>) -> bool {
    &&& forall|a: Seq<char>, b: Seq<char>|
        s.contains(a) && s.contains(b) && numbered(a) && numbered(b) ==> #[trigger] key_order(b, a)
            == flip(key_order(a, b))
    &&& forall|a: Seq<char>, b: Seq<char>, c: Seq<char>|
        s.contains(a) && s.contains(b) && s.contains(c) && numbered(a) && numbered(b) && numbered(c)
            && #[trigger] key_order(a, b) != Ordering::Greater && #[trigger] key_order(b, c)
            != Ordering::Greater ==> key_order(a, c) != Ordering::Greater
}

/// The condition holds of any paths taken from paths where it holds.
pub(crate) proof fn lemma_keys_order_well_sub(s: Seq<Seq<char>>, t: Seq<Seq<char>>)
    requires
        keys_order_well(s),
        forall|i: int| 0 <= i < t.len() ==> s.contains(#[trigger] t[i]),
    ensures
        keys_order_well(t),
{
    assert forall|a: Seq<char>| t.contains(a) implies s.contains(a) by {
        let i = choose|i: int| 0 <= i < t.len() && t[i] == a;
        assert(s.contains(t[i]));
    }
}

proof fn lemma_numbered_pair(s: Seq<Seq<char>>, a: Seq<char>, b: Seq<char>)
    requires
        keys_order_well(s),
        s.contains(a),
        s.contains(b),
    ensures
        path_order(b, a) == flip(path_order(a, b)),
{
    law_text_order_reverse(a, b);
    if numbered(a) && numbered(b) {
        assert(key_order(b, a) == flip(key_order(a, b)));
    }
}

proof fn lemma_numbered_triple(s: Seq<Seq<char>>, a: Seq<char>, b: Seq<char>, c: Seq<char>)
    requires
        keys_order_well(s),
        s.contains(a),
        s.contains(b),
        s.contains(c),
        path_order(a, b) != Ordering::Greater,
        path_order(b, c) != Ordering::Greater,
    ensures
        path_order(a, c) != Ordering::Greater,
{
    if numbered(a) && numbered(b) && numbered(c) {
        let ab = key_order(a, b);
        let bc = key_order(b, c);
        let ac = key_order(a, c);
        assert(key_order(b, a) == flip(ab));
        assert(key_order(c, b) == flip(bc));
        assert(key_order(c, a) == flip(ac));
        assert(ab != Ordering::Greater && bc != Ordering::Greater ==> ac != Ordering::Greater);
        assert(key_order(b, c) != Ordering::Greater && key_order(c, a) != Ordering::Greater
            ==> key_order(b, a) != Ordering::Greater);
        assert(key_order(c, a) != Ordering::Greater && key_order(a, b) != Ordering::Greater
            ==> key_order(c, b) != Ordering::Greater);
        if text_order(a, b) != Ordering::Greater && text_order(b, c) != Ordering::Greater {
            law_text_order_transitive(a, b, c);
        }
    } else if numbered(a) || numbered(b) || numbered(c) {
        lemma_path_ranks(a, b, c);
    } else {
        lemma_path_triple(a, b, c);
    }
}

/// Paths of different kinds compare by kind alone: structured names, then
/// numbered keys, then plain ones.
proof fn lemma_path_ranks(a: Seq<char>, b: Seq<char>, c: Seq<char>)
    requires
        path_order(a, b) != Ordering::Greater,
        path_order(b, c) != Ordering::Greater,
        !(numbered(a) && numbered(b) && numbered(c)),
        numbered(a) || numbered(b) || numbered(c),
    ensures
        path_order(a, c) != Ordering::Greater,
{
}

/// Where `alphanumeric_sort::compare_str` orders the numbered keys of the
/// paths as a total preorder, the path order is a total preorder on them,
/// and the sort leaves no path before one it belongs after.
pub proof fn law_paths_order_well(s: Seq<Seq<char>>)
    requires
        keys_order_well(s),
    ensures
        orders_well(paths_after(), s),
        sorted_by(sort_seq(s, paths_after()), paths_after()),
        sort_seq(s, paths_after()).to_multiset() == s.to_multiset(),
{
    assert forall|a: Seq<char>, b: Seq<char>|
        s.contains(a) && s.contains(b) && #[trigger] (paths_after())(a, b) implies !(paths_after())(
        b,
        a,
    ) by {
        lemma_numbered_pair(s, a, b);
    }
    assert forall|a: Seq<char>, b: Seq<char>, c: Seq<char>|
        s.contains(a) && s.contains(b) && s.contains(c) && !#[trigger] (paths_after())(a, b)
            && !#[trigger] (paths_after())(b, c) implies !(paths_after())(a, c) by {
        lemma_numbered_triple(s, a, b, c);
    }
    law_sort_sorted(s, paths_after());
    law_sort_permutation(s, paths_after());
}

/// Two structured names (`volume.chapter.title`) sort by volume first, then
/// by chapter, and only then by the paths themselves; they come before every
/// other name.
pub proof fn law_structured_names_order(
    a: Seq<char>,
    b: Seq<char>,
    av: i32,
    ac: i32,
    at: Seq<char>,
    bv: i32,
    bc: i32,
    bt: Seq<char>,
)
    requires
        structured_parts(a) == Some((av, ac, at)),
        structured_parts(b) == Some((bv, bc, bt)),
    ensures
        av < bv ==> path_order(a, b) == Ordering::Less,
        av > bv ==> path_order(a, b) == Ordering::Greater,
        av == bv && ac < bc ==> path_order(a, b) == Ordering::Less,
        av == bv && ac > bc ==> path_order(a, b) == Ordering::Greater,
        av == bv && ac == bc ==> path_order(a, b) == text_order(a, b),
{
}

/// A structured name comes before any name that is not structured.
pub proof fn law_structured_names_first(a: Seq<char>, b: Seq<char>)
    requires
        structured_parts(a) is Some,
        structured_parts(b) is None,
    ensures
        path_order(a, b) == Ordering::Less,
        path_order(b, a) == Ordering::Greater,
{
}

/// Without numbered natural keys, the path order is a total preorder:
/// structured names by volume, chapter and path, then all other names as
/// equals.
pub proof fn law_paths_without_numbers_order_well(s: Seq<Seq<char>>)
    requires
        forall|i: int| 0 <= i < s.len() ==> !numbered(#[trigger] s[i]),
    ensures
        orders_well(paths_after(), s),
{
    assert forall|a: Seq<char>, b: Seq<char>|
        s.contains(a) && s.contains(b) && #[trigger] (paths_after())(a, b) implies !(paths_after())(
        b,
        a,
    ) by {
        lemma_path_pair(a, b);
    }
    assert forall|a: Seq<char>, b: Seq<char>, c: Seq<char>|
        s.contains(a) && s.contains(b) && s.contains(c) && !#[trigger] (paths_after())(a, b)
            && !#[trigger] (paths_after())(b, c) implies !(paths_after())(a, c) by {
        lemma_path_triple(a, b, c);
    }
}

/// Without numbered natural keys, `sort_paths` leaves no path before one it
/// belongs after: structured names first, in volume, chapter and path order.
pub proof fn law_sort_paths_without_numbers(s: Seq<Seq<char>>)
    requires
        forall|i: int| 0 <= i < s.len() ==> !numbered(#[trigger] s[i]),
    ensures
        sorted_by(sort_seq(s, paths_after()), paths_after()),
        sort_seq(s, paths_after()).to_multiset() == s.to_multiset(),
{
    law_paths_without_numbers_order_well(s);
    law_sort_sorted(s, paths_after());
    law_sort_permutation(s, paths_after());
}

/// Where no element belongs after another, the sort keeps the order given.
pub proof fn law_sort_keeps_unrelated<T>(s: Seq<T>, after: spec_fn(T, T) -> bool)
    requires
        forall|a: T, b: T| s.contains(a) && s.contains(b) ==> !#[trigger] after(a, b),
    ensures
        sort_seq(s, after) == s,
    decreases s.len(),
{
    if s.len() > 0 {
        let d = s.drop_last();
        assert forall|a: T, b: T| d.contains(a) && d.contains(b) implies !#[trigger] after(a, b) by {
            let i = choose|i: int| 0 <= i < d.len() && d[i] == a;
            let j = choose|j: int| 0 <= j < d.len() && d[j] == b;
            assert(s[i] == a && s[j] == b);
        }
        law_sort_keeps_unrelated(d, after);
        if d.len() > 0 {
            assert(s[d.len() - 1] == d.last());
            assert(s[s.len() - 1] == s.last());
        }
        assert(d.push(s.last()) =~= s);
    }
}

/// Plain names (no structured name, no number) keep the order given.
pub proof fn law_sort_paths_keeps_plain_order(s: Seq<Seq<char>>)
    requires
        forall|i: int| 0 <= i < s.len() ==> plain(#[trigger] s[i]),
    ensures
        sort_seq(s, paths_after()) == s,
{
    assert forall|a: Seq<char>, b: Seq<char>| s.contains(a) && s.contains(b) implies !#[trigger] (
    paths_after())(a, b) by {
        let i = choose|i: int| 0 <= i < s.len() && s[i] == a;
        let j = choose|j: int| 0 <= j < s.len() && s[j] == b;
        assert(plain(s[i]) && plain(s[j]));
    }
    law_sort_keeps_unrelated(s, paths_after());
}

} // verus!
