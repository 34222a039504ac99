//! The syntax in which a model asks for knowledge: calls such as
//! `find_term("quadrober")`. In regular-expression notation a call is
//! `(?i)(find_term|find_category|find_tag|search_terms|get_related)\s*\(\s*["']([^"']+)["']\s*\)`;
//! calls are found left to right and never overlap.
use vstd::prelude::*;
use crate::text::{chars_of, is_whitespace_char, is_ws, slice_chars, string_of};
use crate::rag::{OperationKind, OperationView, RagOperation, RagSystem};
use crate::discord::{is_quote, skip_ws};

verus! {

broadcast use vstd::seq_lib::group_seq_properties;

pub open spec fn keyword(k: OperationKind) -> Seq<char> {
    match k {
        OperationKind::FindTerm => "find_term"@,
        OperationKind::FindCategory => "find_category"@,
        OperationKind::FindTag => "find_tag"@,
        OperationKind::SearchTerms => "search_terms"@,
        OperationKind::GetRelated => "get_related"@,
    }
}

/// The kinds in the order the alternatives are tried.
pub open spec fn kind_at(n: int) -> OperationKind {
    if n == 0 {
        OperationKind::FindTerm
    } else if n == 1 {
        OperationKind::FindCategory
    } else if n == 2 {
        OperationKind::FindTag
    } else if n == 3 {
        OperationKind::SearchTerms
    } else {
        OperationKind::GetRelated
    }
}

pub open spec fn ascii_upper(c: char) -> char {
    if 'a' <= c && c <= 'z' {
        ((c as u32) - 32) as char
    } else {
        c
    }
}

/// `c` matches the keyword character `k` ignoring case. Case folding puts
/// the long s (U+017F) in the same class as `s`.
pub open spec fn matches_ignoring_case(c: char, k: char) -> bool {
    c == k || c == ascii_upper(k) || (k == 's' && c == '\u{17F}')
}

/// The keyword matches at `i`, ignoring case.
pub open spec fn keyword_at(s: Seq<char>, i: int, kw: Seq<char>) -> bool {
    &&& 0 <= i
    &&& i + kw.len() <= s.len()
    &&& forall|j: int| 0 <= j < kw.len() ==> matches_ignoring_case(#[trigger] s[i + j], kw[j])
}

/// The matched keyword lower-cases to the keyword itself: it only differs
/// from it in ASCII case.
pub open spec fn keyword_exact(s: Seq<char>, i: int, kw: Seq<char>) -> bool {
    forall|j: int| 0 <= j < kw.len() ==> (#[trigger] s[i + j] == kw[j] || s[i + j] == ascii_upper(kw[j]))
}

/// The first quote at or after `i`.
pub open spec fn quote_from(s: Seq<char>, i: int) -> Option<int>
    decreases s.len() - i,
{
    if i < 0 || i >= s.len() {
        None
    } else if is_quote(s[i]) {
        Some(i)
    } else {
        quote_from(s, i + 1)
    }
}

/// After a keyword ending at `p`: `\s*\(\s*["']([^"']+)["']\s*\)`. Yields
/// where the parameter starts and ends and where the call ends.
pub open spec fn call_tail(s: Seq<char>, p: int) -> Option<(int, int, int)> {
    let a = skip_ws(s, p);
    if 0 <= a < s.len() && s[a] == '(' {
        let b = skip_ws(s, a + 1);
        if 0 <= b < s.len() && is_quote(s[b]) {
            match quote_from(s, b + 1) {
                Some(c) => {
                    let d = skip_ws(s, c + 1);
                    if c > b + 1 && 0 <= d < s.len() && s[d] == ')' {
                        Some((b + 1, c, d + 1))
                    } else {
                        None
                    }
                },
                None => None,
            }
        } else {
            None
        }
    } else {
        None
    }
}

/// The call starting at `i` tried with the alternatives from `n` on: the
/// kind, the parameter's bounds, the end of the call, and whether the
/// keyword lower-cases to a known operation.
pub open spec fn call_from_kind(s: Seq<char>, i: int, n: int) -> Option<
    (OperationKind, int, int, int, bool),
>
    decreases 5 - n,
{
    if n < 0 || n >= 5 {
        None
    } else {
        let kw = keyword(kind_at(n));
        if keyword_at(s, i, kw) && call_tail(s, i + kw.len()) is Some {
            let t = call_tail(s, i + kw.len()).unwrap();
            Some((kind_at(n), t.0, t.1, t.2, keyword_exact(s, i, kw)))
        } else {
            call_from_kind(s, i, n + 1)
        }
    }
}

pub open spec fn call_at(s: Seq<char>, i: int) -> Option<(OperationKind, int, int, int, bool)> {
    call_from_kind(s, i, 0)
}

pub proof fn lemma_skip_ws_ge(s: Seq<char>, i: int)
    ensures
        skip_ws(s, i) >= i,
    decreases s.len() - i,
{
    if 0 <= i < s.len() && is_ws(s[i]) {
        lemma_skip_ws_ge(s, i + 1);
    }
}

pub proof fn lemma_quote_from(s: Seq<char>, i: int)
    ensures
        quote_from(s, i) matches Some(c) ==> i <= c < s.len() && 0 <= c && is_quote(s[c]),
        quote_from(s, i) matches Some(c) ==> forall|k: int|
            i <= k < c ==> !is_quote(#[trigger] s[k]),
    decreases s.len() - i,
{
    if 0 <= i < s.len() && !is_quote(s[i]) {
        lemma_quote_from(s, i + 1);
    }
}

pub proof fn lemma_call_tail(s: Seq<char>, p: int)
    ensures
        call_tail(s, p) matches Some(t) ==> p < t.0 < t.1 < t.2 <= s.len(),
{
    let a = skip_ws(s, p);
    lemma_skip_ws_ge(s, p);
    lemma_skip_ws_ge(s, a + 1);
    let b = skip_ws(s, a + 1);
    lemma_quote_from(s, b + 1);
    if let Some(c) = quote_from(s, b + 1) {
        lemma_skip_ws_ge(s, c + 1);
    }
}

pub proof fn lemma_call_from_kind(s: Seq<char>, i: int, n: int)
    ensures
        call_from_kind(s, i, n) matches Some(m) ==> i < m.1 < m.2 < m.3 <= s.len(),
    decreases 5 - n,
{
    if 0 <= n < 5 {
        let kw = keyword(kind_at(n));
        lemma_call_tail(s, i + kw.len());
        if !(keyword_at(s, i, kw) && call_tail(s, i + kw.len()) is Some) {
            lemma_call_from_kind(s, i, n + 1);
        }
    }
}

/// The operations found from position `i` on.
pub open spec fn operations_from(s: Seq<char>, i: int) -> Seq<OperationView>
    decreases s.len() - i,
{
    if i < 0 || i >= s.len() {
        Seq::<OperationView>::empty()
    } else {
        match call_at(s, i) {
            Some(m) => {
                proof {
                    lemma_call_from_kind(s, i, 0);
                }
                let rest = operations_from(s, m.3);
                if m.4 {
                    seq![(m.0, s.subrange(m.1, m.2))] + rest
                } else {
                    rest
                }
            },
            None => operations_from(s, i + 1),
        }
    }
}

/// The operations a model's reply asks for, in the order they appear.
pub open spec fn parsed_operations(s: Seq<char>) -> Seq<OperationView> {
    operations_from(s, 0)
}

proof fn lemma_call_tail_parameter(s: Seq<char>, p: int)
    ensures
        call_tail(s, p) matches Some(t) ==> t.0 < t.1 && forall|k: int|
            t.0 <= k < t.1 ==> !is_quote(#[trigger] s[k]),
{
    lemma_call_tail(s, p);
    let a = skip_ws(s, p);
    let b = skip_ws(s, a + 1);
    lemma_quote_from(s, b + 1);
}

proof fn lemma_call_parameter(s: Seq<char>, i: int, n: int)
    ensures
        call_from_kind(s, i, n) matches Some(m) ==> m.1 < m.2 && forall|k: int|
            m.1 <= k < m.2 ==> !is_quote(#[trigger] s[k]),
    decreases 5 - n,
{
    if 0 <= n < 5 {
        let kw = keyword(kind_at(n));
        lemma_call_tail_parameter(s, i + kw.len());
        if !(keyword_at(s, i, kw) && call_tail(s, i + kw.len()) is Some) {
            lemma_call_parameter(s, i, n + 1);
        }
    }
}

proof fn lemma_operations_parameters(s: Seq<char>, i: int)
    ensures
        forall|k: int|
            0 <= k < operations_from(s, i).len() ==> (#[trigger] operations_from(s, i)[k]).1.len()
                > 0 && forall|j: int|
                0 <= j < operations_from(s, i)[k].1.len() ==> !is_quote(
                    operations_from(s, i)[k].1[j],
                ),
    decreases s.len() - i,
{
    if 0 <= i < s.len() {
        match call_at(s, i) {
            Some(m) => {
                lemma_call_from_kind(s, i, 0);
                lemma_call_parameter(s, i, 0);
                lemma_operations_parameters(s, m.3);
                let rest = operations_from(s, m.3);
                let all = operations_from(s, i);
                if m.4 {
                    let param = s.subrange(m.1, m.2);
                    assert forall|k: int| 0 <= k < all.len() implies (#[trigger] all[k]).1.len() > 0
                        && forall|j: int| 0 <= j < all[k].1.len() ==> !is_quote(all[k].1[j]) by {
                        if k == 0 {
                            assert(all[0] == (m.0, param));
                            assert forall|j: int| 0 <= j < param.len() implies !is_quote(
                                param[j],
                            ) by {
                                assert(param[j] == s[m.1 + j]);
                            }
                        } else {
                            assert(all[k] == rest[k - 1]);
                        }
                    }
                } else {
                    assert(all == rest);
                }
            },
            None => {
                lemma_operations_parameters(s, i + 1);
                assert(operations_from(s, i) == operations_from(s, i + 1));
            },
        }
    }
}

/// Every operation read from a reply has a parameter of at least one
/// character, with no quote character in it.
pub proof fn law_parsed_parameters(s: Seq<char>)
    ensures
        forall|k: int|
            0 <= k < parsed_operations(s).len() ==> (#[trigger] parsed_operations(s)[k]).1.len() > 0
                && forall|j: int|
                0 <= j < parsed_operations(s)[k].1.len() ==> !is_quote(
                    parsed_operations(s)[k].1[j],
                ),
{
    lemma_operations_parameters(s, 0);
}

/// `w` is the keyword `kw` with any of its letters in upper case.
pub open spec fn spelled_in_any_case(w: Seq<char>, kw: Seq<char>) -> bool {
    &&& w.len() == kw.len()
    &&& forall|j: int| 0 <= j < kw.len() ==> (#[trigger] w[j] == kw[j] || w[j] == ascii_upper(kw[j]))
}

/// A single call: the name, then the parameter in double quotes in
/// brackets.
pub open spec fn single_call(w: Seq<char>, p: Seq<char>) -> Seq<char> {
    w + seq!['(', '"'] + p + seq!['"', ')']
}

/// The first quote from `i` on is at `c` when none stands before it.
proof fn lemma_quote_from_run(s: Seq<char>, i: int, c: int)
    requires
        0 <= i <= c < s.len(),
        is_quote(s[c]),
        forall|k: int| i <= k < c ==> !is_quote(#[trigger] s[k]),
    ensures
        quote_from(s, i) == Some(c),
    decreases c - i,
{
    if i < c {
        lemma_quote_from_run(s, i + 1, c);
    }
}

/// The index of a kind among the alternatives.
pub open spec fn kind_index(k: OperationKind) -> int {
    match k {
        OperationKind::FindTerm => 0,
        OperationKind::FindCategory => 1,
        OperationKind::FindTag => 2,
        OperationKind::SearchTerms => 3,
        OperationKind::GetRelated => 4,
    }
}

/// Law: a reply that is a single call, its name in any letter case and its
/// parameter non-empty and free of quotes, asks for exactly that operation
/// with the parameter as written.
pub proof fn law_single_call_parses(kind: OperationKind, w: Seq<char>, p: Seq<char>)
    requires
        spelled_in_any_case(w, keyword(kind)),
        p.len() > 0,
        forall|j: int| 0 <= j < p.len() ==> !is_quote(#[trigger] p[j]),
    ensures
        parsed_operations(single_call(w, p)) == seq![(kind, p)],
{
    reveal_strlit("find_term");
    reveal_strlit("find_category");
    reveal_strlit("find_tag");
    reveal_strlit("search_terms");
    reveal_strlit("get_related");
    let s = single_call(w, p);
    let kw = keyword(kind);
    let l = kw.len() as int;
    let n = p.len() as int;
    assert(s.len() == l + n + 4);
    assert forall|j: int| 0 <= j < l implies #[trigger] s[j] == w[j] by {}
    assert(s[l] == '(' && s[l + 1] == '"');
    assert forall|k: int| 0 <= k < n implies #[trigger] s[l + 2 + k] == p[k] by {}
    assert(s[l + 2 + n] == '"' && s[l + 3 + n] == ')');
    assert(keyword_at(s, 0, kw)) by {
        assert forall|j: int| 0 <= j < kw.len() implies matches_ignoring_case(
            #[trigger] s[0 + j],
            kw[j],
        ) by {
            assert(s[j] == w[j]);
        }
    }
    assert(keyword_exact(s, 0, kw)) by {
        assert forall|j: int| 0 <= j < kw.len() implies (#[trigger] s[0 + j] == kw[j] || s[0 + j]
            == ascii_upper(kw[j])) by {
            assert(s[j] == w[j]);
        }
    }
    assert(skip_ws(s, l) == l);
    assert(skip_ws(s, l + 1) == l + 1);
    assert forall|k: int| l + 2 <= k < l + 2 + n implies !is_quote(#[trigger] s[k]) by {
        assert(s[l + 2 + (k - l - 2)] == p[k - l - 2]);
    }
    lemma_quote_from_run(s, l + 2, l + 2 + n);
    assert(skip_ws(s, l + 3 + n) == l + 3 + n);
    assert(call_tail(s, l) == Some((l + 2, l + 2 + n, l + 4 + n)));
    assert(s.subrange(l + 2, l + 2 + n) =~= p);
    // The alternatives tried before `kind` do not match at the start.
    if kind_index(kind) >= 1 {
        let kw0 = keyword(kind_at(0));
        if kind_index(kind) == 1 {
            assert(!matches_ignoring_case(s[0int + 5int], kw0[5int]));
        } else if kind_index(kind) == 2 {
            assert(!matches_ignoring_case(s[0int + 6int], kw0[6int]));
        } else {
            assert(!matches_ignoring_case(s[0int + 0int], kw0[0int]));
        }
        assert(!keyword_at(s, 0, kw0));
    }
    if kind_index(kind) >= 2 {
        let kw1 = keyword(kind_at(1));
        if kind_index(kind) == 2 {
            assert(!matches_ignoring_case(s[0int + 5int], kw1[5int]));
        } else {
            assert(!matches_ignoring_case(s[0int + 0int], kw1[0int]));
        }
        assert(!keyword_at(s, 0, kw1));
    }
    if kind_index(kind) >= 3 {
        let kw2 = keyword(kind_at(2));
        assert(!matches_ignoring_case(s[0int + 0int], kw2[0int]));
        assert(!keyword_at(s, 0, kw2));
    }
    if kind_index(kind) >= 4 {
        let kw3 = keyword(kind_at(3));
        assert(!matches_ignoring_case(s[0int + 0int], kw3[0int]));
        assert(!keyword_at(s, 0, kw3));
    }
    assert(kind_at(kind_index(kind)) == kind);
    assert(call_from_kind(s, 0, kind_index(kind)) == Some(
        (kind, l + 2, l + 2 + n, l + 4 + n, true),
    ));
    if kind_index(kind) >= 4 {
        assert(call_from_kind(s, 0, 3) == call_from_kind(s, 0, 4));
    }
    if kind_index(kind) >= 3 {
        assert(call_from_kind(s, 0, 2) == call_from_kind(s, 0, 3));
    }
    if kind_index(kind) >= 2 {
        assert(call_from_kind(s, 0, 1) == call_from_kind(s, 0, 2));
    }
    if kind_index(kind) >= 1 {
        assert(call_from_kind(s, 0, 0) == call_from_kind(s, 0, 1));
    }
    assert(call_at(s, 0) == Some((kind, l + 2, l + 2 + n, l + 4 + n, true)));
    assert(operations_from(s, l + 4 + n) == Seq::<OperationView>::empty());
    assert(parsed_operations(s) =~= seq![(kind, p)]);
}

// ---------------------------------------------------------------------------
// Executable matcher
// ---------------------------------------------------------------------------

fn keyword_chars(n: usize) -> (v: Vec<char>)
    requires
        n < 5,
    ensures
        v@ == keyword(kind_at(n as int)),
{
    if n == 0 {
        chars_of("find_term")
    } else if n == 1 {
        chars_of("find_category")
    } else if n == 2 {
        chars_of("find_tag")
    } else if n == 3 {
        chars_of("search_terms")
    } else {
        chars_of("get_related")
    }
}

fn kind_of(n: usize) -> (k: OperationKind)
    requires
        n < 5,
    ensures
        k == kind_at(n as int),
{
    if n == 0 {
        OperationKind::FindTerm
    } else if n == 1 {
        OperationKind::FindCategory
    } else if n == 2 {
        OperationKind::FindTag
    } else if n == 3 {
        OperationKind::SearchTerms
    } else {
        OperationKind::GetRelated
    }
}

fn upper_exec(c: char) -> (r: char)
    ensures
        r == ascii_upper(c),
{
    if 'a' <= c && c <= 'z' {
        ((c as u32) - 32) as u8 as char
    } else {
        c
    }
}

/// Whether the keyword matches at `i` ignoring case, and whether exactly.
fn keyword_at_exec(s: &[char], i: usize, kw: &[char]) -> (r: (bool, bool))
    ensures
        r.0 == keyword_at(s@, i as int, kw@),
        r.0 ==> r.1 == keyword_exact(s@, i as int, kw@),
{
    if i > s.len() || kw.len() > s.len() - i {
        return (false, false);
    }
    let mut exact = true;
    let mut j: usize = 0;
    while j < kw.len()
        invariant
            i + kw@.len() <= s@.len(),
            s@.len() == s.len(),
            j <= kw@.len(),
            forall|m: int| 0 <= m < j ==> matches_ignoring_case(#[trigger] s@[i + m], kw@[m]),
            exact == (forall|m: int|
                0 <= m < j ==> (#[trigger] s@[i + m] == kw@[m] || s@[i + m] == ascii_upper(
                    kw@[m],
                ))),
        decreases kw@.len() - j,
    {
        let c = s[i + j];
        let k = kw[j];
        let up = upper_exec(k);
        let plain = c == k || c == up;
        if !(plain || (k == 's' && c == '\u{17F}')) {
            assert(!matches_ignoring_case(s@[i + j as int], kw@[j as int]));
            return (false, false);
        }
        if !plain {
            exact = false;
        }
        j = j + 1;
    }
    (true, exact)
}

fn skip_ws_from(s: &[char], i: usize) -> (r: usize)
    requires
        i <= s@.len(),
    ensures
        r == skip_ws(s@, i as int),
        i <= r <= s@.len(),
{
    let mut k = i;
    while k < s.len() && is_whitespace_char(s[k])
        invariant
            i <= k <= s@.len(),
            skip_ws(s@, k as int) == skip_ws(s@, i as int),
        decreases s@.len() - k,
    {
        k = k + 1;
    }
    k
}

fn quote_from_exec(s: &[char], i: usize) -> (r: Option<usize>)
    ensures
        r matches Some(c) ==> quote_from(s@, i as int) == Some(c as int),
        r is None ==> quote_from(s@, i as int) is None,
{
    let mut k = i;
    while k < s.len()
        invariant
            i <= k,
            quote_from(s@, k as int) == quote_from(s@, i as int),
        decreases s@.len() - k,
    {
        if s[k] == '"' || s[k] == '\'' {
            return Some(k);
        }
        k = k + 1;
    }
    None
}

fn call_tail_exec(s: &[char], p: usize) -> (r: Option<(usize, usize, usize)>)
    requires
        p <= s@.len(),
    ensures
        r matches Some(t) ==> call_tail(s@, p as int) == Some((t.0 as int, t.1 as int, t.2 as int)),
        r is None ==> call_tail(s@, p as int) is None,
{
    let a = skip_ws_from(s, p);
    if a >= s.len() || s[a] != '(' {
        return None;
    }
    let b = skip_ws_from(s, a + 1);
    if b >= s.len() || !(s[b] == '"' || s[b] == '\'') {
        return None;
    }
    match quote_from_exec(s, b + 1) {
        Some(c) => {
            proof {
                lemma_quote_from(s@, b + 1);
            }
            let d = skip_ws_from(s, c + 1);
            if c > b + 1 && d < s.len() && s[d] == ')' {
                Some((b + 1, c, d + 1))
            } else {
                None
            }
        },
        None => None,
    }
}

fn call_at_exec(s: &[char], i: usize) -> (r: Option<(OperationKind, usize, usize, usize, bool)>)
    requires
        i < s@.len(),
    ensures
        r matches Some(m) ==> call_at(s@, i as int) == Some(
            (m.0, m.1 as int, m.2 as int, m.3 as int, m.4),
        ),
        r is None ==> call_at(s@, i as int) is None,
{
    let mut n: usize = 0;
    while n < 5
        invariant
            n <= 5,
            i < s@.len(),
            call_from_kind(s@, i as int, n as int) == call_at(s@, i as int),
        decreases 5 - n,
    {
        let kw = keyword_chars(n);
        let (found, exact) = keyword_at_exec(s, i, kw.as_slice());
        if found {
            assert(i + kw@.len() <= s@.len());
            assert(s@.len() == s.len());
            assert(kw@.len() == kw.len());
            match call_tail_exec(s, i + kw.len()) {
                Some(t) => {
                    return Some((kind_of(n), t.0, t.1, t.2, exact));
                },
                None => {},
            }
        }
        n = n + 1;
    }
    None
}

fn make_operation(kind: OperationKind, param: String) -> (r: RagOperation)
    ensures
        r@ == (kind, param@),
{
    match kind {
        OperationKind::FindTerm => RagOperation::FindTerm(param),
        OperationKind::FindCategory => RagOperation::FindCategory(param),
        OperationKind::FindTag => RagOperation::FindTag(param),
        OperationKind::SearchTerms => RagOperation::SearchTerms(param),
        OperationKind::GetRelated => RagOperation::GetRelated(param),
    }
}

/// Finds every call in `s`, left to right.
pub fn parse_operation_chars(s: &[char]) -> (r: Vec<RagOperation>)
    ensures
        r@.len() == parsed_operations(s@).len(),
        forall|k: int| 0 <= k < r@.len() ==> #[trigger] r@[k]@ == parsed_operations(s@)[k],
{
    let mut r: Vec<RagOperation> = Vec::new();
    let mut i: usize = 0;
    while i < s.len()
        invariant
            i <= s@.len(),
            r@.len() + operations_from(s@, i as int).len() == parsed_operations(s@).len(),
            forall|k: int| 0 <= k < r@.len() ==> #[trigger] r@[k]@ == parsed_operations(s@)[k],
            forall|k: int|
                0 <= k < operations_from(s@, i as int).len() ==> #[trigger] operations_from(
                    s@,
                    i as int,
                )[k] == parsed_operations(s@)[r@.len() + k],
        decreases s@.len() - i,
    {
        proof {
            lemma_call_from_kind(s@, i as int, 0);
        }
        match call_at_exec(s, i) {
            Some(m) => {
                let ghost rest = operations_from(s@, m.3 as int);
                if m.4 {
                    let param = slice_chars(s, m.1, m.2);
                    let op = make_operation(m.0, string_of(param.as_slice()));
                    proof {
                        assert(operations_from(s@, i as int) == seq![
                            (m.0, s@.subrange(m.1 as int, m.2 as int)),
                        ] + rest);
                        assert(operations_from(s@, i as int)[0] == op@);
                    }
                    r.push(op);
                    proof {
                        assert forall|k: int| 0 <= k < rest.len() implies #[trigger] rest[k]
                            == parsed_operations(s@)[r@.len() + k] by {
                            assert(rest[k] == operations_from(s@, i as int)[k + 1]);
                        }
                    }
                }
                i = m.3;
            },
            None => {
                i = i + 1;
            },
        }
    }
    r
}

impl RagSystem {
    /// The operations a model's reply asks for, in order of appearance.
    /// A call whose name only matches through Unicode case folding (a long s
    /// in place of an `s`) is passed over.
    pub fn parse_operations(&self, text: &str) -> (r: Vec<RagOperation>)
        ensures
            r@.len() == parsed_operations(text@).len(),
            forall|k: int|
                0 <= k < r@.len() ==> #[trigger] r@[k]@ == parsed_operations(text@)[k],
    {
        let v = chars_of(text);
        parse_operation_chars(v.as_slice())
    }
}

} // verus!
