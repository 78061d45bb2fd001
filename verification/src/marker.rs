//! Keeping a generated summary between marker comments, so that the text
//! around it survives regeneration.
use vstd::prelude::*;
use crate::seqs::{first_index, lemma_first_index, lemma_first_index_is, lemma_first_index_none};
use crate::text::{
    chars_of, ends_with, find, has_suffix, occurs_at, push_all, slice_of, string_of,
};

verus! {

/// `<!-- book-summary-start-{marker} -->`
pub open spec fn start_marker(marker: Seq<char>) -> Seq<char> {
    "<!-- book-summary-start-"@ + marker + " -->"@
}

/// `<!-- book-summary-end-{marker} -->`
pub open spec fn end_marker(marker: Seq<char>) -> Seq<char> {
    "<!-- book-summary-end-"@ + marker + " -->"@
}

/// The content between the two marker lines.
pub open spec fn wrapped(content: Seq<char>, marker: Seq<char>) -> Seq<char> {
    start_marker(marker) + seq!['\n'] + content + seq!['\n'] + end_marker(marker)
}

/// `str::find`: the first index at which `pat` occurs in `s`.
pub open spec fn first_occurrence(s: Seq<char>, pat: Seq<char>) -> Option<int> {
    first_index(Seq::new((s.len() + 1) as nat, |i: int| i), |i: int| occurs_at(s, pat, i))
}

/// The new content, ended by a line break.
pub open spec fn with_final_newline(content: Seq<char>) -> Seq<char> {
    if has_suffix(content, seq!['\n']) {
        content
    } else {
        content.push('\n')
    }
}

/// An existing summary with its marked block replaced: where both markers
/// occur, the text up to the end of the first start marker is kept, then the
/// new content (ended by a line break), then the text from the first end
/// marker on. Where either marker is missing, the wrapped content is
/// appended after a blank line.
pub open spec fn updated_summary(existing: Seq<char>, content: Seq<char>, marker: Seq<char>) -> Seq<
    char,
> {
    let start = first_occurrence(existing, start_marker(marker));
    let end = first_occurrence(existing, end_marker(marker));
    if start is Some && end is Some {
        let content_start = start->0 + start_marker(marker).len();
        existing.take(content_start) + with_final_newline(content) + existing.skip(end->0)
    } else {
        existing + seq!['\n', '\n'] + wrapped(content, marker)
    }
}

fn start_marker_of(marker: &Vec<char>) -> (r: Vec<char>)
    ensures
        r@ == start_marker(marker@),
{
    let mut r = chars_of("<!-- book-summary-start-");
    push_all(&mut r, marker);
    let tail = chars_of(" -->");
    push_all(&mut r, &tail);
    r
}

fn end_marker_of(marker: &Vec<char>) -> (r: Vec<char>)
    ensures
        r@ == end_marker(marker@),
{
    let mut r = chars_of("<!-- book-summary-end-");
    push_all(&mut r, marker);
    let tail = chars_of(" -->");
    push_all(&mut r, &tail);
    r
}

fn wrapped_of(content: &Vec<char>, marker: &Vec<char>) -> (r: Vec<char>)
    ensures
        r@ == wrapped(content@, marker@),
{
    let mut r = start_marker_of(marker);
    r.push('\n');
    push_all(&mut r, content);
    r.push('\n');
    let end = end_marker_of(marker);
    push_all(&mut r, &end);
    assert(r@ =~= wrapped(content@, marker@));
    r
}

/// `content` between a start marker line and an end marker line.
pub fn wrap_with_marker(content: &str, marker: &str) -> (r: String)
    ensures
        r@ == wrapped(content@, marker@),
{
    let c = chars_of(content);
    let m = chars_of(marker);
    string_of(&wrapped_of(&c, &m))
}

/// The first occurrence of `pat` in `s`.
fn find_first(s: &Vec<char>, pat: &Vec<char>) -> (r: Option<usize>)
    ensures
        match r {
            Some(i) => first_occurrence(s@, pat@) == Some(i as int),
            None => first_occurrence(s@, pat@) is None,
        },
{
    let ghost idx = Seq::new((s@.len() + 1) as nat, |i: int| i);
    let ghost p = |i: int| occurs_at(s@, pat@, i);
    match find(s, pat) {
        Some(i) => {
            proof {
                assert(idx[i as int] == i);
                assert forall|j: int| 0 <= j < i implies !p(#[trigger] idx[j]) by {
                    assert(idx[j] == j);
                }
                lemma_first_index_is(idx, p, i as int);
            }
            Some(i)
        },
        None => {
            proof {
                assert forall|j: int| 0 <= j < idx.len() implies !p(#[trigger] idx[j]) by {
                    assert(idx[j] == j);
                }
                lemma_first_index_none(idx, p);
            }
            None
        },
    }
}

/// The existing summary with the text between its markers replaced by
/// `new_content` (ended by a line break); where a marker is missing, the
/// wrapped content is appended after a blank line.
pub fn update_partial_summary(existing: &str, new_content: &str, marker: &str) -> (r: String)
    ensures
        r@ == updated_summary(existing@, new_content@, marker@),
{
    let e = chars_of(existing);
    let c = chars_of(new_content);
    let m = chars_of(marker);
    let start_mark = start_marker_of(&m);
    let end_mark = end_marker_of(&m);
    let start_idx = find_first(&e, &start_mark);
    let end_idx = find_first(&e, &end_mark);
    match (start_idx, end_idx) {
        (Some(start), Some(end)) => {
            proof {
                crate::seqs::lemma_first_index(
                    Seq::new((e@.len() + 1) as nat, |i: int| i),
                    |i: int| occurs_at(e@, start_mark@, i),
                );
                crate::seqs::lemma_first_index(
                    Seq::new((e@.len() + 1) as nat, |i: int| i),
                    |i: int| occurs_at(e@, end_mark@, i),
                );
                let idx = Seq::new((e@.len() + 1) as nat, |i: int| i);
                assert(idx[start as int] == start);
                assert(idx[end as int] == end);
                assert(occurs_at(e@, start_mark@, start as int));
                assert(occurs_at(e@, end_mark@, end as int));
            }
            let total = e.len();
            assert(start + start_mark@.len() <= total);
            let content_start = start + start_mark.len();
            let mut out = slice_of(&e, 0, content_start);
            push_all(&mut out, &c);
            let newline_end = vec!['\n'];
            assert(newline_end@ =~= seq!['\n']);
            if !ends_with(&c, &newline_end) {
                out.push('\n');
            }
            let tail = slice_of(&e, end, e.len());
            push_all(&mut out, &tail);
            assert(out@ =~= updated_summary(existing@, new_content@, marker@));
            string_of(&out)
        },
        _ => {
            let mut out = slice_of(&e, 0, e.len());
            out.push('\n');
            out.push('\n');
            let w = wrapped_of(&c, &m);
            push_all(&mut out, &w);
            assert(out@ =~= updated_summary(existing@, new_content@, marker@));
            string_of(&out)
        },
    }
}

/// The text to write as the summary file: the summary itself without a
/// marker; with a marker, the existing file updated between its markers, or
/// the wrapped summary where there is no existing file.
pub fn summary_file_content(existing: Option<&str>, content: &str, marker: Option<&str>) -> (r: String)
    ensures
        r@ == match marker {
            None => content@,
            Some(m) => match existing {
                Some(e) => updated_summary(e@, content@, m@),
                None => wrapped(content@, m@),
            },
        },
{
    match marker {
        None => string_of(&chars_of(content)),
        Some(m) => match existing {
            Some(e) => update_partial_summary(e, content, m),
            None => wrap_with_marker(content, m),
        },
    }
}

// ---------------------------------------------------------------------------
// Laws of the marked block
// ---------------------------------------------------------------------------
/// A marker name that can stand between the marker comments: no line break
/// and no `<`.
pub open spec fn plain_marker(marker: Seq<char>) -> bool {
    forall|i: int| 0 <= i < marker.len() ==> #[trigger] marker[i] != '\n' && marker[i] != '<'
}

/// The text holds no end marker.
pub open spec fn free_of_end_marker(s: Seq<char>, marker: Seq<char>) -> bool {
    forall|i: int| !#[trigger] occurs_at(s, end_marker(marker), i)
}

proof fn lemma_marker_shapes(m: Seq<char>)
    requires
        plain_marker(m),
    ensures
        start_marker(m).len() == m.len() + 28,
        end_marker(m).len() == m.len() + 26,
        start_marker(m)[0] == '<',
        start_marker(m)[18] == 's',
        end_marker(m)[18] == 'e',
        end_marker(m)[0] == '<',
        forall|i: int| 0 < i < start_marker(m).len() ==> #[trigger] start_marker(m)[i] != '<',
        forall|i: int| 0 <= i < end_marker(m).len() ==> #[trigger] end_marker(m)[i] != '\n',
{
    reveal_strlit("<!-- book-summary-start-");
    reveal_strlit("<!-- book-summary-end-");
    reveal_strlit(" -->");
    let s = start_marker(m);
    let e = end_marker(m);
    assert forall|i: int| 0 < i < s.len() implies #[trigger] s[i] != '<' by {
        if i >= 24 && i < 24 + m.len() {
            assert(s[i] == m[i - 24]);
        }
    }
    assert forall|i: int| 0 <= i < e.len() implies #[trigger] e[i] != '\n' by {
        if i >= 22 && i < 22 + m.len() {
            assert(e[i] == m[i - 22]);
        }
    }
}

/// In a text made of a start marker, a block ending in a line break that
/// holds no end marker, and an end marker, the first end marker is the last
/// one.
proof fn lemma_first_end_marker(c: Seq<char>, m: Seq<char>)
    requires
        plain_marker(m),
        c.len() > 0,
        c.last() == '\n',
        free_of_end_marker(c, m),
    ensures
        first_occurrence(start_marker(m) + c + end_marker(m), end_marker(m)) == Some(
            (start_marker(m).len() + c.len()) as int,
        ),
        first_occurrence(start_marker(m) + c + end_marker(m), start_marker(m)) == Some(0int),
{
    let sm = start_marker(m);
    let em = end_marker(m);
    let y = sm + c + em;
    let t: int = (sm.len() + c.len()) as int;
    lemma_marker_shapes(m);
    let idx = Seq::new((y.len() + 1) as nat, |i: int| i);
    let p = |i: int| occurs_at(y, em, i);
    assert(y.subrange(t, t + em.len() as int) =~= em);
    assert(idx[t] == t);
    assert forall|j: int| 0 <= j < t implies !p(#[trigger] idx[j]) by {
        assert(idx[j] == j);
        if occurs_at(y, em, j) {
            let w = y.subrange(j, j + em.len());
            if j == 0 {
                assert(w[18] == y[18]);
                assert(y[18] == sm[18]);
            } else if j < sm.len() {
                assert(w[0] == y[j]);
                assert(y[j] == sm[j]);
            } else if j + em.len() <= t {
                assert(c.subrange(j - sm.len(), j - sm.len() + em.len()) =~= w);
                assert(occurs_at(c, em, j - sm.len()));
            } else {
                assert(w[t - 1 - j] == y[t - 1]);
                assert(y[t - 1] == c[c.len() - 1]);
            }
        }
    }
    lemma_first_index_is(idx, p, t);
    let q = |i: int| occurs_at(y, sm, i);
    assert(y.subrange(0, sm.len() as int) =~= sm);
    assert(idx[0] == 0);
    lemma_first_index_is(idx, q, 0);
}

/// Updating a text made of a start marker, a block ending in a line break
/// that holds no end marker, and an end marker puts the new content in place
/// of the block.
proof fn lemma_update_block(c: Seq<char>, new: Seq<char>, m: Seq<char>)
    requires
        plain_marker(m),
        c.len() > 0,
        c.last() == '\n',
        free_of_end_marker(c, m),
    ensures
        updated_summary(start_marker(m) + c + end_marker(m), new, m) == start_marker(m)
            + with_final_newline(new) + end_marker(m),
{
    let sm = start_marker(m);
    let em = end_marker(m);
    let y = sm + c + em;
    let t: int = (sm.len() + c.len()) as int;
    lemma_first_end_marker(c, m);
    assert(y.take(sm.len() as int) =~= sm);
    assert(y.skip(t) =~= em);
}

/// Regenerating a freshly wrapped summary replaces the generated block: the
/// start marker, the new content ended by a line break, the end marker.
pub proof fn law_update_replaces_wrapped_block(old: Seq<char>, new: Seq<char>, m: Seq<char>)
    requires
        plain_marker(m),
        free_of_end_marker(old, m),
    ensures
        updated_summary(wrapped(old, m), new, m) == start_marker(m) + with_final_newline(new)
            + end_marker(m),
{
    let c = seq!['\n'] + old + seq!['\n'];
    assert(wrapped(old, m) =~= start_marker(m) + c + end_marker(m));
    lemma_marker_shapes(m);
    assert forall|i: int| !#[trigger] occurs_at(c, end_marker(m), i) by {
        if occurs_at(c, end_marker(m), i) {
            let em = end_marker(m);
            let w = c.subrange(i, i + em.len());
            if i == 0 {
                assert(w[0] == c[0]);
            } else if i + em.len() <= c.len() - 1 {
                assert(old.subrange(i - 1, i - 1 + em.len()) =~= w);
                assert(occurs_at(old, em, i - 1));
            } else {
                assert(w[c.len() - 1 - i] == c[c.len() - 1]);
            }
        }
    }
    lemma_update_block(c, new, m);
}

/// `first_occurrence` finds an occurrence with none before it, and finds
/// nothing only where there is none.
proof fn lemma_first_occurrence(s: Seq<char>, pat: Seq<char>)
    ensures
        match first_occurrence(s, pat) {
            Some(i) => occurs_at(s, pat, i) && forall|j: int| j < i ==> !#[trigger] occurs_at(s, pat, j),
            None => forall|j: int| !#[trigger] occurs_at(s, pat, j),
        },
{
    let idx = Seq::new((s.len() + 1) as nat, |i: int| i);
    let p = |i: int| occurs_at(s, pat, i);
    lemma_first_index(idx, p);
    match first_index(idx, p) {
        Some(k) => {
            assert(idx[k] == k);
            assert forall|j: int| j < k implies !#[trigger] occurs_at(s, pat, j) by {
                if 0 <= j {
                    assert(idx[j] == j);
                }
            }
        },
        None => {
            assert forall|j: int| !#[trigger] occurs_at(s, pat, j) by {
                if 0 <= j <= s.len() {
                    assert(idx[j] == j);
                }
            }
        },
    }
}

proof fn lemma_first_occurrence_is(s: Seq<char>, pat: Seq<char>, i: int)
    requires
        occurs_at(s, pat, i),
        forall|j: int| j < i ==> !#[trigger] occurs_at(s, pat, j),
    ensures
        first_occurrence(s, pat) == Some(i),
{
    let idx = Seq::new((s.len() + 1) as nat, |k: int| k);
    let p = |k: int| occurs_at(s, pat, k);
    assert(idx[i] == i);
    assert forall|j: int| 0 <= j < i implies !p(#[trigger] idx[j]) by {
        assert(idx[j] == j);
    }
    lemma_first_index_is(idx, p, i);
}

/// A text without an end marker keeps none when a line break is added.
proof fn lemma_final_newline_free(new: Seq<char>, m: Seq<char>)
    requires
        plain_marker(m),
        free_of_end_marker(new, m),
    ensures
        free_of_end_marker(with_final_newline(new), m),
        with_final_newline(new).len() > 0,
        with_final_newline(new).last() == '\n',
{
    let em = end_marker(m);
    lemma_marker_shapes(m);
    if !has_suffix(new, seq!['\n']) {
        let c = new.push('\n');
        assert forall|i: int| !#[trigger] occurs_at(c, em, i) by {
            if occurs_at(c, em, i) {
                let w = c.subrange(i, i + em.len());
                if i + em.len() <= new.len() {
                    assert(new.subrange(i, i + em.len()) =~= w);
                    assert(occurs_at(new, em, i));
                } else {
                    assert(w[new.len() - i] == c[new.len() as int]);
                }
            }
        }
    } else {
        assert(new.skip(new.len() - 1)[0] == new.last());
    }
}

/// In the updated text no end marker starts before the end of the new block.
#[verifier::rlimit(40)]
proof fn lemma_no_end_marker_before(
    existing: Seq<char>,
    c: Seq<char>,
    m: Seq<char>,
    s: int,
    e: int,
    j: int,
)
    requires
        plain_marker(m),
        free_of_end_marker(c, m),
        c.len() > 0,
        c.last() == '\n',
        occurs_at(existing, start_marker(m), s),
        forall|k: int| k < e ==> !#[trigger] occurs_at(existing, end_marker(m), k),
        s + start_marker(m).len() <= e <= existing.len(),
        j < s + start_marker(m).len() + c.len(),
    ensures
        !occurs_at(
            existing.take(s + start_marker(m).len()) + c + existing.skip(e),
            end_marker(m),
            j,
        ),
{
    let sm = start_marker(m);
    let em = end_marker(m);
    let cs = s + sm.len();
    let r = existing.take(cs) + c + existing.skip(e);
    let t = cs + c.len();
    lemma_marker_shapes(m);
    if occurs_at(r, em, j) {
        let w = r.subrange(j, j + em.len());
        if j + em.len() <= cs {
            assert(w =~= existing.subrange(j, j + em.len()));
            assert(occurs_at(existing, em, j));
        } else if j < cs {
            assert(w[0] == r[j]);
            assert(r[j] == existing[j]);
            assert(existing.subrange(s, cs)[j - s] == existing[j]);
        } else if j + em.len() <= t {
            assert(c.subrange(j - cs, j - cs + em.len()) =~= w);
            assert(occurs_at(c, em, j - cs));
        } else {
            assert(w[t - 1 - j] == r[t - 1]);
            assert(r[t - 1] == c[c.len() - 1]);
        }
    }
}

/// Updating a text whose first start marker comes before its first end
/// marker keeps the text before the block and from the end marker on, and
/// the markers are then found around the new block.
#[verifier::rlimit(40)]
proof fn lemma_update_markers(existing: Seq<char>, new: Seq<char>, m: Seq<char>, s: int, e: int)
    requires
        plain_marker(m),
        free_of_end_marker(new, m),
        first_occurrence(existing, start_marker(m)) == Some(s),
        first_occurrence(existing, end_marker(m)) == Some(e),
        s < e,
    ensures
        updated_summary(existing, new, m) == existing.take(s + start_marker(m).len())
            + with_final_newline(new) + existing.skip(e),
        s + start_marker(m).len() <= e,
        first_occurrence(updated_summary(existing, new, m), start_marker(m)) == Some(s),
        first_occurrence(updated_summary(existing, new, m), end_marker(m)) == Some(
            s + start_marker(m).len() + with_final_newline(new).len(),
        ),
{
    let sm = start_marker(m);
    let em = end_marker(m);
    let c = with_final_newline(new);
    lemma_marker_shapes(m);
    lemma_first_occurrence(existing, sm);
    lemma_first_occurrence(existing, em);
    lemma_final_newline_free(new, m);
    let cs = s + sm.len();
    // The end marker cannot start inside the start marker.
    if e < cs {
        assert(existing.subrange(e, e + em.len())[0] == existing[e]);
        assert(existing.subrange(s, cs)[e - s] == existing[e]);
    }
    let a = existing.take(cs);
    let b = existing.skip(e);
    let r = a + c + b;
    let t = cs + c.len();
    assert(r == updated_summary(existing, new, m));
    // The start marker is found at `s` and nowhere before.
    assert(r.subrange(s, cs) =~= existing.subrange(s, cs));
    assert forall|j: int| j < s implies !#[trigger] occurs_at(r, sm, j) by {
        if occurs_at(r, sm, j) {
            assert(r.subrange(j, j + sm.len()) =~= existing.subrange(j, j + sm.len()));
            assert(occurs_at(existing, sm, j));
        }
    }
    lemma_first_occurrence_is(r, sm, s);
    // The end marker is found right after the new block and nowhere before.
    assert(r.subrange(t, t + em.len()) =~= existing.subrange(e, e + em.len()));
    assert forall|j: int| j < t implies !#[trigger] occurs_at(r, em, j) by {
        lemma_no_end_marker_before(existing, c, m, s, e, j);
    }
    lemma_first_occurrence_is(r, em, t);
}

/// Regenerating again with the same content changes nothing, wherever the
/// first start marker comes before the first end marker and the content
/// holds no end marker.
pub proof fn law_update_is_stable(existing: Seq<char>, new: Seq<char>, m: Seq<char>)
    requires
        plain_marker(m),
        free_of_end_marker(new, m),
        first_occurrence(existing, start_marker(m)) is Some,
        first_occurrence(existing, end_marker(m)) is Some,
        first_occurrence(existing, start_marker(m))->0 < first_occurrence(existing, end_marker(m))->0,
    ensures
        updated_summary(updated_summary(existing, new, m), new, m) == updated_summary(existing, new, m),
{
    let s = first_occurrence(existing, start_marker(m))->0;
    let e = first_occurrence(existing, end_marker(m))->0;
    let cs = s + start_marker(m).len();
    let c = with_final_newline(new);
    lemma_update_markers(existing, new, m, s, e);
    let r = updated_summary(existing, new, m);
    let a = existing.take(cs);
    let b = existing.skip(e);
    lemma_first_occurrence(existing, start_marker(m));
    lemma_first_occurrence(existing, end_marker(m));
    assert(e <= existing.len());
    assert(r == a + c + b);
    assert(a.len() == cs);
    assert(r.take(cs) =~= a);
    assert(r.skip(cs + c.len()) =~= b);
}

} // verus!
