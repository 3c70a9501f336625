//! Chapter-address arithmetic: reading the ordinal out of a chapter address,
//! deriving the series index address, and deriving sibling chapter addresses.
use vstd::prelude::*;

use crate::error::{EngineError, Edge, InputProblem};
use crate::text::{
    all_digits, dec, find, find_spec, is_digit, lemma_dec, numeral_value, occurs_at,
    parse_decimal, push_decimal, starts_with, value_of,
};

verus! {

/// The text that opens the ordinal of a chapter address.
pub const CHAPTER_MARKER: &'static str = "/chapter-";

/// The suffix of page addresses on the source site.
pub const PAGE_SUFFIX: &'static str = ".html";

#[verifier::opaque]
pub open spec fn marker() -> Seq<char> {
    seq!['/', 'c', 'h', 'a', 'p', 't', 'e', 'r', '-']
}

#[verifier::opaque]
pub open spec fn page_suffix() -> Seq<char> {
    seq!['.', 'h', 't', 'm', 'l']
}

proof fn lemma_marker_facts()
    ensures
        marker().len() == 9,
        marker()[0] == '/',
        forall|k: int| 1 <= k < 9 ==> marker()[k] != '/',
        page_suffix().len() == 5,
        page_suffix()[0] == '.',
        forall|k: int| 0 <= k < 5 ==> page_suffix()[k] != '/',
{
    reveal(marker);
    reveal(page_suffix);
}

/// A chapter token, `"/chapter-"`, then `k` decimal digits, then `".html"`,
/// starts at index `m` of `url`.
pub open spec fn token_at(url: Seq<char>, m: int, k: int) -> bool {
    &&& occurs_at(url, marker(), m)
    &&& k >= 1
    &&& forall|i: int| m + 9 <= i < m + 9 + k ==> is_digit(#[trigger] url[i])
    &&& occurs_at(url, page_suffix(), m + 9 + k)
}

/// The token at `m` is the last chapter token of `url`.
pub open spec fn last_token(url: Seq<char>, m: int, k: int) -> bool {
    &&& token_at(url, m, k)
    &&& forall|m2: int, k2: int| m < m2 ==> !#[trigger] token_at(url, m2, k2)
}

/// `url` holds exactly one chapter token.
#[verifier::opaque]
pub open spec fn single_token(url: Seq<char>) -> bool {
    forall|m1: int, k1: int, m2: int, k2: int|
        #[trigger] token_at(url, m1, k1) && #[trigger] token_at(url, m2, k2) ==> m1 == m2
}

/// A chapter address read as `prefix + "/chapter-" + digits + ".html" + rest`
/// around its last chapter token: an earlier `/chapter-` that is not followed
/// by digits and `".html"` belongs to the prefix.
pub open spec fn chapter_split(url: Seq<char>) -> Option<(Seq<char>, Seq<char>, Seq<char>)> {
    if exists|m: int, k: int| last_token(url, m, k) {
        let (m, k) = choose|m: int, k: int| last_token(url, m, k);
        Some((url.take(m), url.subrange(m + 9, m + 9 + k), url.skip(m + 14 + k)))
    } else {
        None
    }
}

/// The chapter address with the given parts.
pub open spec fn chapter_url(prefix: Seq<char>, ordinal: Seq<char>, rest: Seq<char>) -> Seq<
    char,
> {
    prefix + marker() + ordinal + page_suffix() + rest
}

/// The chapter number that `url` encodes, if it is a chapter address.
pub open spec fn url_chapter(url: Seq<char>) -> Option<nat> {
    match chapter_split(url) {
        Some((_, d, _)) => Some(value_of(d)),
        None => None,
    }
}

/// The series index address of a chapter address: everything before the
/// chapter token, followed by `".html"`.
pub open spec fn index_url_spec(url: Seq<char>) -> Option<Seq<char>> {
    match chapter_split(url) {
        Some((p, _, _)) => Some(p + page_suffix()),
        None => None,
    }
}

/// What reading a chapter address gives: its index address and its chapter,
/// or the reason it is not a usable chapter address (none, or more than one,
/// chapter token; an ordinal out of range).
pub open spec fn parsed_chapter_url(url: Seq<char>) -> Result<(Seq<char>, nat), EngineError> {
    match chapter_split(url) {
        None => Err(EngineError::Validation(InputProblem::NoChapterMarker)),
        Some((p, d, _)) => if !single_token(url) {
            Err(EngineError::Validation(InputProblem::RepeatedChapterMarker))
        } else if 1 <= value_of(d) <= usize::MAX {
            Ok((p + page_suffix(), value_of(d)))
        } else {
            Err(EngineError::Validation(InputProblem::BadChapterNumber))
        },
    }
}

/// The address of chapter `target`, reached from `url` showing chapter
/// `current`: the digits of the chapter token are replaced as a whole, so
/// `chapter-1` never matches inside `chapter-10`, and nothing else changes.
pub open spec fn derived_url(url: Seq<char>, current: nat, target: nat) -> Result<
    Seq<char>,
    EngineError,
> {
    match chapter_split(url) {
        None => Err(EngineError::Validation(InputProblem::NoChapterMarker)),
        Some((p, d, s)) => if value_of(d) != current {
            Err(EngineError::Validation(InputProblem::ChapterMismatch))
        } else if target == 0 {
            Err(EngineError::Boundary(Edge::First))
        } else {
            Ok(chapter_url(p, dec(target), s))
        },
    }
}

pub open spec fn view_result(r: Result<String, EngineError>) -> Result<Seq<char>, EngineError> {
    match r {
        Ok(s) => Ok(s@),
        Err(e) => Err(e),
    }
}

/// `url` is a chapter address whose ordinal is written canonically as
/// `chapter`.
pub open spec fn canonical_for(url: Seq<char>, chapter: nat) -> bool {
    match chapter_split(url) {
        Some((_, d, _)) => d == dec(chapter),
        None => false,
    }
}

proof fn lemma_token_len_unique(url: Seq<char>, m: int, k1: int, k2: int)
    requires
        token_at(url, m, k1),
        token_at(url, m, k2),
    ensures
        k1 == k2,
{
    lemma_marker_facts();
    if k1 < k2 {
        assert(url.subrange(m + 9 + k1, m + 14 + k1)[0] == url[m + 9 + k1]);
        assert(is_digit(url[m + 9 + k1]));
    } else if k2 < k1 {
        assert(url.subrange(m + 9 + k2, m + 14 + k2)[0] == url[m + 9 + k2]);
        assert(is_digit(url[m + 9 + k2]));
    }
}

proof fn lemma_split_at(url: Seq<char>, m: int, k: int)
    requires
        last_token(url, m, k),
    ensures
        chapter_split(url) == Some(
            (url.take(m), url.subrange(m + 9, m + 9 + k), url.skip(m + 14 + k)),
        ),
{
    let (m2, k2) = choose|m2: int, k2: int| last_token(url, m2, k2);
    assert(last_token(url, m2, k2));
    if m < m2 {
        assert(!token_at(url, m2, k2));
    } else if m2 < m {
        assert(!token_at(url, m, k));
    }
    lemma_token_len_unique(url, m, k, k2);
}

/// Tokens of a tail of `x` are tokens of `x`, shifted.
proof fn lemma_token_shift(x: Seq<char>, b: int, j: int, k: int)
    requires
        0 <= b <= x.len(),
        0 <= j,
    ensures
        token_at(x.skip(b), j, k) == token_at(x, b + j, k),
{
    lemma_marker_facts();
    let t = x.skip(b);
    if j + 9 <= t.len() {
        assert(t.subrange(j, j + 9) =~= x.subrange(b + j, b + j + 9));
    }
    if k >= 1 && j + 14 + k <= t.len() {
        assert(t.subrange(j + 9 + k, j + 14 + k) =~= x.subrange(b + j + 9 + k, b + j + 14 + k));
        assert forall|i: int| j + 9 <= i < j + 9 + k implies t[i] == x[b + i] by {}
        if token_at(t, j, k) {
            assert forall|i: int| b + j + 9 <= i < b + j + 9 + k implies is_digit(
                #[trigger] x[i],
            ) by {
                assert(t[i - b] == x[i]);
            }
        }
        if token_at(x, b + j, k) {
            assert forall|i: int| j + 9 <= i < j + 9 + k implies is_digit(#[trigger] t[i]) by {
                assert(x[b + i] == t[i]);
            }
        }
    }
}

/// After the last token, the rest of the address holds no token.
proof fn lemma_rest_has_no_token(url: Seq<char>, m: int, k: int)
    requires
        last_token(url, m, k),
    ensures
        forall|j: int, k2: int| !#[trigger] token_at(url.skip(m + 14 + k), j, k2),
{
    lemma_marker_facts();
    assert forall|j: int, k2: int| !#[trigger] token_at(url.skip(m + 14 + k), j, k2) by {
        if j >= 0 {
            lemma_token_shift(url, m + 14 + k, j, k2);
            assert(!token_at(url, m + 14 + k + j, k2));
        }
    }
}

/// The address built from a prefix, digits and a rest without tokens has
/// its last token right after the prefix.
proof fn lemma_build_token(p: Seq<char>, d: Seq<char>, s: Seq<char>)
    requires
        d.len() >= 1,
        all_digits(d),
    ensures
        token_at(chapter_url(p, d, s), p.len() as int, d.len() as int),
{
    lemma_marker_facts();
    let u = chapter_url(p, d, s);
    let m = p.len() as int;
    let k = d.len() as int;
    assert(u.subrange(m, m + 9) =~= marker());
    assert(u.subrange(m + 9 + k, m + 14 + k) =~= page_suffix());
    assert forall|i: int| m + 9 <= i < m + 9 + k implies is_digit(#[trigger] u[i]) by {
        assert(u[i] == d[i - m - 9]);
    }
}

proof fn lemma_build_no_later(p: Seq<char>, d: Seq<char>, s: Seq<char>)
    requires
        d.len() >= 1,
        all_digits(d),
        forall|j: int, k2: int| !#[trigger] token_at(s, j, k2),
    ensures
        forall|m2: int, k2: int|
            p.len() < m2 ==> !#[trigger] token_at(chapter_url(p, d, s), m2, k2),
{
    lemma_marker_facts();
    let u = chapter_url(p, d, s);
    let m = p.len() as int;
    let k = d.len() as int;
    let b = m + 14 + k;
    assert(u.skip(b) =~= s);
    assert forall|m2: int, k2: int| m < m2 implies !#[trigger] token_at(u, m2, k2) by {
        if token_at(u, m2, k2) {
            assert(u.subrange(m2, m2 + 9)[0] == u[m2]);
            if m2 < m + 9 {
                assert(u[m2] == marker()[m2 - m]);
            } else if m2 < m + 9 + k {
                assert(u[m2] == d[m2 - m - 9]);
            } else if m2 < b {
                assert(u[m2] == page_suffix()[m2 - m - 9 - k]);
            } else {
                lemma_token_shift(u, b, m2 - b, k2);
            }
        }
    }
}

proof fn lemma_build_last(p: Seq<char>, d: Seq<char>, s: Seq<char>)
    requires
        d.len() >= 1,
        all_digits(d),
        forall|j: int, k2: int| !#[trigger] token_at(s, j, k2),
    ensures
        last_token(chapter_url(p, d, s), p.len() as int, d.len() as int),
        chapter_split(chapter_url(p, d, s)) == Some((p, d, s)),
{
    lemma_marker_facts();
    let u = chapter_url(p, d, s);
    let m = p.len() as int;
    let k = d.len() as int;
    lemma_build_token(p, d, s);
    lemma_build_no_later(p, d, s);
    lemma_split_at(u, m, k);
    assert(u.take(m) =~= p);
    assert(u.subrange(m + 9, m + 9 + k) =~= d);
    assert(u.skip(m + 14 + k) =~= s);
}

proof fn lemma_split_parts(url: Seq<char>)
    requires
        chapter_split(url) is Some,
    ensures
        ({
            let (p, d, s) = chapter_split(url)->Some_0;
            &&& url == chapter_url(p, d, s)
            &&& d.len() >= 1
            &&& all_digits(d)
            &&& forall|j: int, k2: int| !#[trigger] token_at(s, j, k2)
        }),
{
    lemma_marker_facts();
    let (m, k) = choose|m: int, k: int| last_token(url, m, k);
    lemma_split_at(url, m, k);
    let (p, d, s) = chapter_split(url)->Some_0;
    assert(url.subrange(m, m + 9) == marker());
    assert(url.subrange(m + 9 + k, m + 14 + k) == page_suffix());
    assert(url =~= chapter_url(p, d, s));
    assert forall|i: int| 0 <= i < d.len() implies is_digit(#[trigger] d[i]) by {
        assert(d[i] == url[m + 9 + i]);
    }
    lemma_rest_has_no_token(url, m, k);
}

proof fn lemma_numeral_of_digits(d: Seq<char>)
    requires
        d.len() >= 1,
        all_digits(d),
    ensures
        numeral_value(d) == Some(value_of(d)),
{
    assert(is_digit(d[0]));
}

/// Deriving the address of the chapter that is already shown gives back the
/// address itself.
pub proof fn lemma_derive_identity(url: Seq<char>, chapter: nat)
    requires
        canonical_for(url, chapter),
        chapter >= 1,
    ensures
        derived_url(url, chapter, chapter) == Ok::<Seq<char>, EngineError>(url),
{
    lemma_split_parts(url);
    lemma_dec(chapter);
}

/// Going from chapter `chapter` to `target` and back again restores the
/// starting address, and the derived address shows `target` canonically.
pub proof fn lemma_derive_round_trip(url: Seq<char>, chapter: nat, target: nat)
    requires
        canonical_for(url, chapter),
        chapter >= 1,
        target >= 1,
    ensures
        derived_url(url, chapter, target) is Ok,
        canonical_for(derived_url(url, chapter, target)->Ok_0, target),
        derived_url(derived_url(url, chapter, target)->Ok_0, target, chapter) == Ok::<
            Seq<char>,
            EngineError,
        >(url),
{
    let (p, d, s) = chapter_split(url)->Some_0;
    lemma_split_parts(url);
    lemma_dec(chapter);
    lemma_dec(target);
    lemma_build_last(p, dec(target), s);
}

pub(crate) fn marker_str() -> (r: &'static str)
    ensures
        r@ == marker(),
{
    proof {
        reveal_strlit("/chapter-");
        reveal(marker);
    }
    CHAPTER_MARKER
}

pub(crate) fn suffix_str() -> (r: &'static str)
    ensures
        r@ == page_suffix(),
{
    proof {
        reveal_strlit(".html");
        reveal(page_suffix);
    }
    PAGE_SUFFIX
}

/// Whether index `j` of `url` holds a decimal digit.
pub(crate) fn digit_at(url: &str, n: usize, j: usize) -> (r: bool)
    requires
        n == url@.len(),
    ensures
        r == (j < n && is_digit(url@[j as int])),
{
    if j >= n {
        return false;
    }
    let c = url.get_char(j);
    '0' <= c && c <= '9'
}

/// The number of digits of the chapter token at `i`, if one starts there.
fn token_len_at(url: &str, n: usize, i: usize) -> (r: Option<usize>)
    requires
        n == url@.len(),
        i < n,
    ensures
        match r {
            Some(k) => token_at(url@, i as int, k as int),
            None => forall|k: int| !#[trigger] token_at(url@, i as int, k),
        },
{
    proof {
        lemma_marker_facts();
    }
    if n - i < 9 {
        return None;
    }
    let from_i = url.substring_char(i, n);
    assert(from_i@ =~= url@.skip(i as int));
    if !starts_with(from_i, marker_str()) {
        assert forall|k: int| !#[trigger] token_at(url@, i as int, k) by {
            if occurs_at(url@, marker(), i as int) {
                assert(from_i@.take(9) =~= url@.subrange(i as int, i + 9));
            }
        }
        return None;
    }
    assert(from_i@.take(9) =~= url@.subrange(i as int, i + 9));
    let start = i + 9;
    let mut j: usize = start;
    while digit_at(url, n, j)
        invariant
            n == url@.len(),
            start <= j <= n,
            forall|t: int| start <= t < j ==> is_digit(#[trigger] url@[t]),
        decreases n - j,
    {
        j = j + 1;
    }
    let k = j - start;
    let ghost stop = j;
    assert(j < n ==> !is_digit(url@[j as int]));
    if k == 0 {
        assert forall|k2: int| !#[trigger] token_at(url@, i as int, k2) by {
            if token_at(url@, i as int, k2) {
                assert(is_digit(url@[start as int]));
            }
        }
        return None;
    }
    let rest = url.substring_char(j, n);
    assert(rest@ =~= url@.skip(j as int));
    let found = starts_with(rest, suffix_str());
    if n - j >= 5 {
        assert(rest@.take(5) =~= url@.subrange(j as int, j + 5));
    }
    assert forall|k2: int| #[trigger] token_at(url@, i as int, k2) implies k2 == k && found by {
        if k2 < k {
            assert(url@.subrange(start + k2, start + k2 + 5)[0] == url@[start + k2]);
            assert(is_digit(url@[start + k2]));
        } else if k2 > k {
            assert(is_digit(url@[j as int]));
        }
    }
    if found {
        assert(url@.subrange(j as int, j + 5) == page_suffix());
        Some(k)
    } else {
        None
    }
}

/// Splits a chapter address around its last chapter token, and tells
/// whether that token is its only one.
fn split_chapter_url(url: &str) -> (r: Option<(&str, &str, &str, bool)>)
    ensures
        match r {
            Some((p, d, s, one)) => chapter_split(url@) == Some((p@, d@, s@)) && one
                == single_token(url@),
            None => chapter_split(url@) is None,
        },
{
    let n = url.unicode_len();
    let mut first: Option<(usize, usize)> = None;
    let mut last: Option<(usize, usize)> = None;
    let mut i: usize = 0;
    while i < n
        invariant
            n == url@.len(),
            i <= n,
            first is Some <==> last is Some,
            match first {
                Some((f, fk)) => {
                    &&& token_at(url@, f as int, fk as int)
                    &&& forall|m2: int, k2: int| 0 <= m2 < f ==> !#[trigger] token_at(url@, m2, k2)
                },
                None => true,
            },
            match last {
                Some((m, k)) => {
                    &&& token_at(url@, m as int, k as int)
                    &&& m < i
                    &&& forall|m2: int, k2: int| m < m2 < i ==> !#[trigger] token_at(url@, m2, k2)
                },
                None => forall|m2: int, k2: int| 0 <= m2 < i ==> !#[trigger] token_at(url@, m2, k2),
            },
        decreases n - i,
    {
        match token_len_at(url, n, i) {
            Some(k) => {
                if first.is_none() {
                    first = Some((i, k));
                }
                last = Some((i, k));
            },
            None => {},
        }
        i = i + 1;
    }
    proof {
        lemma_marker_facts();
    }
    match last {
        None => {
            assert forall|m: int, k: int| !last_token(url@, m, k) by {
                if m >= 0 && m < n {
                    assert(!token_at(url@, m, k));
                }
            }
            None
        },
        Some((m, k)) => {
            assert(last_token(url@, m as int, k as int));
            proof {
                lemma_split_at(url@, m as int, k as int);
            }
            let (f, fk) = match first {
                Some(x) => x,
                None => (m, k),
            };
            let one = f == m;
            assert(one == single_token(url@)) by {
                reveal(single_token);
                if f == m {
                    assert forall|m1: int, k1: int, m2: int, k2: int|
                        #[trigger] token_at(url@, m1, k1) && #[trigger] token_at(url@, m2, k2)
                        implies m1 == m2 by {
                        assert(!(m1 < f) && !(m1 > m));
                        assert(!(m2 < f) && !(m2 > m));
                    }
                } else {
                    assert(token_at(url@, f as int, fk as int));
                    assert(token_at(url@, m as int, k as int));
                }
            }
            let p = url.substring_char(0, m);
            let d = url.substring_char(m + 9, m + 9 + k);
            let s = url.substring_char(m + 14 + k, n);
            assert(p@ =~= url@.take(m as int));
            assert(s@ =~= url@.skip(m + 14 + k));
            Some((p, d, s, one))
        },
    }
}

/// Reads a chapter address: its series index address and its chapter.
pub fn parse_chapter_url(url: &str) -> (r: Result<(String, usize), EngineError>)
    ensures
        match parsed_chapter_url(url@) {
            Ok((index, chapter)) => r matches Ok((i, c)) && i@ == index && c as nat == chapter,
            Err(e) => r == Err::<(String, usize), EngineError>(e),
        },
{
    match split_chapter_url(url) {
        None => Err(EngineError::Validation(InputProblem::NoChapterMarker)),
        Some((_, _, _, false)) => Err(EngineError::Validation(InputProblem::RepeatedChapterMarker)),
        Some((p, d, _, true)) => match {
            proof {
                lemma_split_parts(url@);
                lemma_numeral_of_digits(d@);
            }
            parse_decimal(d)
        } {
            Some(v) => {
                if v >= 1 {
                    let mut index = String::from_str(p);
                    index.append(suffix_str());
                    Ok((index, v))
                } else {
                    Err(EngineError::Validation(InputProblem::BadChapterNumber))
                }
            },
            None => Err(EngineError::Validation(InputProblem::BadChapterNumber)),
        },
    }
}

/// The series index address of a chapter address.
pub fn index_url(url: &str) -> (r: Option<String>)
    ensures
        match index_url_spec(url@) {
            Some(i) => r matches Some(s) && s@ == i,
            None => r is None,
        },
{
    match split_chapter_url(url) {
        None => None,
        Some((p, _, _, _)) => {
            let mut index = String::from_str(p);
            index.append(suffix_str());
            Some(index)
        },
    }
}

/// The address of chapter `target`, from the address `current_url` of
/// chapter `current_chapter`.
pub fn derive_chapter_url(current_url: &str, current_chapter: usize, target_chapter: usize) -> (r:
    Result<String, EngineError>)
    ensures
        view_result(r) == derived_url(
            current_url@,
            current_chapter as nat,
            target_chapter as nat,
        ),
{
    match split_chapter_url(current_url) {
        None => Err(EngineError::Validation(InputProblem::NoChapterMarker)),
        Some((p, d, s, _)) => {
            proof {
                lemma_split_parts(current_url@);
                lemma_numeral_of_digits(d@);
            }
            let v = parse_decimal(d);
            if v != Some(current_chapter) {
                return Err(EngineError::Validation(InputProblem::ChapterMismatch));
            }
            if target_chapter == 0 {
                return Err(EngineError::Boundary(Edge::First));
            }
            let mut out = String::from_str(p);
            out.append(marker_str());
            push_decimal(&mut out, target_chapter);
            out.append(suffix_str());
            out.append(s);
            assert(out@ =~= chapter_url(p@, dec(target_chapter as nat), s@));
            Ok(out)
        },
    }
}

/// The address of chapter `chapter` of the series whose index address is
/// `index`: `".html"` at its end gives way to `"/chapter-<n>.html"`.
pub open spec fn chapter_link_spec(index: Seq<char>, chapter: nat) -> Result<
    Seq<char>,
    EngineError,
> {
    if find_spec(index, marker()) is Some || index.len() < 5 || index.skip(index.len() - 5)
        != page_suffix() {
        Err(EngineError::Validation(InputProblem::NotAnIndexUrl))
    } else if chapter == 0 {
        Err(EngineError::Boundary(Edge::First))
    } else {
        Ok(chapter_url(index.take(index.len() - 5), dec(chapter), Seq::empty()))
    }
}

/// The address of chapter `chapter` of the series at `index_url`.
pub fn chapter_link_of(index_url: &str, chapter: usize) -> (r: Result<String, EngineError>)
    ensures
        view_result(r) == chapter_link_spec(index_url@, chapter as nat),
{
    proof {
        lemma_marker_facts();
    }
    if find(index_url, marker_str()).is_some() {
        return Err(EngineError::Validation(InputProblem::NotAnIndexUrl));
    }
    let n = index_url.unicode_len();
    if n < 5 {
        return Err(EngineError::Validation(InputProblem::NotAnIndexUrl));
    }
    let tail = index_url.substring_char(n - 5, n);
    assert(tail@.take(5) =~= tail@);
    assert(tail@ =~= index_url@.skip(n - 5));
    if !starts_with(tail, suffix_str()) {
        return Err(EngineError::Validation(InputProblem::NotAnIndexUrl));
    }
    assert(tail@.take(5) =~= tail@);
    assert(tail@ =~= index_url@.skip(n - 5));
    if chapter == 0 {
        return Err(EngineError::Boundary(Edge::First));
    }
    let mut out = String::from_str(index_url.substring_char(0, n - 5));
    out.append(marker_str());
    push_decimal(&mut out, chapter);
    out.append(suffix_str());
    assert(out@ =~= chapter_url(index_url@.take(n - 5), dec(chapter as nat), Seq::empty()));
    Ok(out)
}

proof fn lemma_first_exists(s: Seq<char>, pat: Seq<char>, i: int)
    requires
        occurs_at(s, pat, i),
    ensures
        find_spec(s, pat) is Some,
    decreases i,
{
    if exists|j: int| 0 <= j < i && occurs_at(s, pat, j) {
        let j = choose|j: int| 0 <= j < i && occurs_at(s, pat, j);
        lemma_first_exists(s, pat, j);
    } else {
        assert(crate::text::first_at(s, pat, i));
    }
}

/// A chapter address built on a prefix of an address without `"/chapter-"`
/// holds no chapter token before that prefix ends.
proof fn lemma_no_earlier_token(index: Seq<char>, p: Seq<char>, d: Seq<char>, m2: int, k2: int)
    requires
        find_spec(index, marker()) is None,
        p.len() <= index.len(),
        p == index.take(p.len() as int),
        0 <= m2 < p.len(),
    ensures
        !token_at(chapter_url(p, d, Seq::empty()), m2, k2),
{
    lemma_marker_facts();
    let u = chapter_url(p, d, Seq::empty());
    if token_at(u, m2, k2) {
        if m2 + 9 <= p.len() {
            assert(index.subrange(m2, m2 + 9) =~= u.subrange(m2, m2 + 9));
            lemma_first_exists(index, marker(), m2);
        } else {
            let j = p.len() - m2;
            assert(u.subrange(m2, m2 + 9)[j] == u[p.len() as int]);
            assert(u[p.len() as int] == marker()[0]);
        }
    }
}

proof fn lemma_link_single(index: Seq<char>, p: Seq<char>, d: Seq<char>)
    requires
        find_spec(index, marker()) is None,
        p.len() <= index.len(),
        p == index.take(p.len() as int),
        d.len() >= 1,
        all_digits(d),
    ensures
        single_token(chapter_url(p, d, Seq::empty())),
{
    let e = Seq::<char>::empty();
    let link = chapter_url(p, d, e);
    assert forall|j: int, k2: int| !#[trigger] token_at(e, j, k2) by {}
    lemma_build_no_later(p, d, e);
    reveal(single_token);
    assert forall|m1: int, k1: int, m2: int, k2: int|
        #[trigger] token_at(link, m1, k1) && #[trigger] token_at(link, m2, k2) implies m1
        == m2 by {
        if m1 < p.len() {
            lemma_no_earlier_token(index, p, d, m1, k1);
        }
        if m2 < p.len() {
            lemma_no_earlier_token(index, p, d, m2, k2);
        }
    }
}

/// The chapter address made from a series index address reads back as that
/// index address and that chapter.
pub proof fn lemma_chapter_link_round_trip(index: Seq<char>, chapter: nat)
    requires
        chapter_link_spec(index, chapter) is Ok,
        chapter <= usize::MAX,
    ensures
        parsed_chapter_url(chapter_link_spec(index, chapter)->Ok_0) == Ok::<
            (Seq<char>, nat),
            EngineError,
        >((index, chapter)),
{
    lemma_marker_facts();
    let p = index.take(index.len() - 5);
    let e = Seq::<char>::empty();
    lemma_dec(chapter);
    assert forall|j: int, k2: int| !#[trigger] token_at(e, j, k2) by {}
    lemma_build_last(p, dec(chapter), e);
    let link = chapter_url(p, dec(chapter), e);
    assert(chapter_link_spec(index, chapter) == Ok::<Seq<char>, EngineError>(link));
    assert(chapter_split(link) == Some((p, dec(chapter), e)));
    lemma_link_single(index, p, dec(chapter));
    assert(p + page_suffix() =~= index);
}

} // verus!
