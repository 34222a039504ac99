//! Prompts for the local language model: estimating their size in tokens,
//! fitting them into the context window, choosing a model, shaping chat
//! histories, cleaning replies, and the restart-and-retry policy.
use vstd::prelude::*;
use rand::Rng;
use crate::text::{
    chars_of, decimal, push_chars, push_decimal, push_str_chars, slice_chars, string_of, trim,
    trim_str,
};

verus! {

broadcast use vstd::seq_lib::group_seq_properties;

pub const MAX_CONTEXT_TOKENS: usize = 4096;

pub const RESPONSE_TOKENS: usize = 1000;

/// Token estimates are approximate, so the response budget is never allowed
/// below this; asking for no tokens at all yields an empty reply.
pub const MIN_RESPONSE_TOKENS: usize = 256;

pub const MAX_RESTART_ATTEMPTS: u8 = 3;

pub const DEFAULT_MODEL: &'static str = "mistral-small3.2:latest";

// ---------------------------------------------------------------------------
// Token estimates
// ---------------------------------------------------------------------------

/// The number of tokens the `cl100k_base` encoding splits `text` into
/// (special tokens allowed), or none when the encoding cannot be loaded or
/// cannot split the text.
pub uninterp spec fn cl100k_token_count(text: Seq<char>) -> Option<nat>;

/// `tiktoken_rs::cl100k_base` followed by `CoreBPE::encode` with every
/// special token allowed: the length of the encoding, a function of the
/// text alone (the ranks are compiled into the crate). Its value is only
/// named here. Where the encoding does not load, or the encoder gives up
/// on the text (its splitting pattern stops at a backtracking limit), the
/// result is none; nothing here states on which texts the latter happens.
/// The special-token pattern the encoder also runs is made of escaped
/// literals only, so its search does not fail.
#[verifier::external_body]
fn cl100k_tokens(text: &str) -> (r: Option<usize>)
    ensures
        match r {
            Some(n) => cl100k_token_count(text@) == Some(n as nat),
            None => cl100k_token_count(text@) is None,
        },
{
    match tiktoken_rs::cl100k_base() {
        Ok(bpe) => match bpe.encode(text, &bpe.special_tokens()) {
            Ok((tokens, _)) => Some(tokens.len()),
            Err(_) => None,
        },
        Err(_) => None,
    }
}

/// Without the encoding: a quarter of the characters, rounded up twice.
pub open spec fn fallback_tokens(chars: nat) -> nat {
    (chars + 6) / 4
}

/// The size of `text` in tokens, by the `cl100k_base` encoding when it
/// loads.
pub open spec fn estimated_tokens(text: Seq<char>) -> nat {
    match cl100k_token_count(text) {
        Some(n) => n,
        None => fallback_tokens(text.len()),
    }
}

/// The estimate for a text of `chars` characters when the encoding cannot
/// be loaded.
pub fn fallback_estimate(chars: usize) -> (n: usize)
    ensures
        n == fallback_tokens(chars as nat),
{
    chars / 4 + (chars % 4 + 6) / 4
}

pub fn estimate_tokens(text: &str) -> (n: usize)
    ensures
        n == estimated_tokens(text@),
{
    match cl100k_tokens(text) {
        Some(n) => n,
        None => fallback_estimate(chars_of(text).len()),
    }
}

// ---------------------------------------------------------------------------
// Fitting a prompt into the context window
// ---------------------------------------------------------------------------

pub open spec fn is_break(c: char) -> bool {
    c == ' ' || c == '\n' || c == '.'
}

/// The last break character in `s[lo..hi]`.
pub open spec fn last_break(s: Seq<char>, lo: int, hi: int) -> Option<int>
    decreases hi - lo,
{
    if hi <= lo {
        None
    } else if is_break(s[hi - 1]) {
        Some(hi - 1)
    } else {
        last_break(s, lo, hi - 1)
    }
}

pub open spec fn sat_sub(a: int, b: int) -> int {
    if a >= b {
        a - b
    } else {
        0
    }
}

/// What `truncate_at_word_boundary` makes of `s`: unchanged when it has at
/// most `max` characters, else cut to `max - 3` characters, back to the last
/// space, newline or full stop among the last 100 of them, and `"..."`
/// appended.
pub open spec fn word_truncated(s: Seq<char>, max: nat) -> Seq<char> {
    if s.len() <= max {
        s
    } else {
        let end = sat_sub(max as int, 3);
        let cut = match last_break(s, sat_sub(end, 100), end) {
            Some(i) => i,
            None => end,
        };
        s.take(cut) + "..."@
    }
}

proof fn lemma_last_break(s: Seq<char>, lo: int, hi: int)
    ensures
        last_break(s, lo, hi) matches Some(i) ==> lo <= i < hi,
    decreases hi - lo,
{
    if hi > lo && !is_break(s[hi - 1]) {
        lemma_last_break(s, lo, hi - 1);
    }
}

pub fn truncate_at_word_boundary(text: &str, max_chars: usize) -> (r: String)
    ensures
        r@ == word_truncated(text@, max_chars as nat),
{
    let chars = chars_of(text);
    if chars.len() <= max_chars {
        return string_of(chars.as_slice());
    }
    let max_content_chars: usize = if max_chars >= 3 {
        max_chars - 3
    } else {
        0
    };
    let mut end_pos: usize = if max_content_chars < chars.len() {
        max_content_chars
    } else {
        chars.len()
    };
    let search_start: usize = if end_pos >= 100 {
        end_pos - 100
    } else {
        0
    };
    let ghost end0 = end_pos as int;
    proof {
        lemma_last_break(chars@, search_start as int, end0);
    }
    let mut i: usize = end_pos;
    while i > search_start
        invariant_except_break
            search_start <= i <= end0 < chars@.len(),
            end_pos == end0,
            last_break(chars@, search_start as int, end0) == last_break(
                chars@,
                search_start as int,
                i as int,
            ),
        ensures
            end_pos == match last_break(chars@, search_start as int, end0) {
                Some(k) => k,
                None => end0,
            },
        decreases i,
    {
        if chars[i - 1] == ' ' || chars[i - 1] == '\n' || chars[i - 1] == '.' {
            end_pos = i - 1;
            break;
        }
        i = i - 1;
    }
    let mut out = slice_chars(chars.as_slice(), 0, end_pos);
    push_str_chars(&mut out, "...");
    string_of(out.as_slice())
}

/// System prompt, optional secondary prompt and user prompt, separated by
/// blank lines.
pub open spec fn assembled(system: Seq<char>, secondary: Option<Seq<char>>, user: Seq<char>) -> Seq<
    char,
> {
    match secondary {
        Some(s) => system + "\n\n"@ + s + "\n\n"@ + user,
        None => system + "\n\n"@ + user,
    }
}

pub open spec fn opt_view(o: Option<&str>) -> Option<Seq<char>> {
    match o {
        Some(s) => Some(s@),
        None => None,
    }
}

pub fn assemble_prompt(system_prompt: &str, secondary_prompt: Option<&str>, user_prompt: &str) -> (r:
    String)
    ensures
        r@ == assembled(system_prompt@, opt_view(secondary_prompt), user_prompt@),
{
    let mut out: Vec<char> = Vec::new();
    push_str_chars(&mut out, system_prompt);
    push_str_chars(&mut out, "\n\n");
    match secondary_prompt {
        Some(secondary) => {
            push_str_chars(&mut out, secondary);
            push_str_chars(&mut out, "\n\n");
        },
        None => {},
    }
    push_str_chars(&mut out, user_prompt);
    proof {
        match secondary_prompt {
            Some(s) => {
                assert(out@ =~= assembled(system_prompt@, opt_view(secondary_prompt), user_prompt@));
            },
            None => {
                assert(out@ =~= assembled(system_prompt@, opt_view(secondary_prompt), user_prompt@));
            },
        }
    }
    string_of(out.as_slice())
}

/// Tokens available for the prompt once the response is reserved.
pub open spec fn prompt_budget() -> nat {
    (MAX_CONTEXT_TOKENS - RESPONSE_TOKENS) as nat
}

/// The prompt sent for parts whose token estimates are `st`, `sec` and
/// `ut`: the assembled prompt when they fit the budget, otherwise the same
/// with only the user part cut down to four characters per token left
/// after the system and secondary prompts.
pub open spec fn fitted_prompt(
    system: Seq<char>,
    secondary: Option<Seq<char>>,
    user: Seq<char>,
    st: nat,
    sec: nat,
    ut: nat,
) -> Seq<char> {
    if st + sec + ut <= prompt_budget() {
        assembled(system, secondary, user)
    } else {
        let max_user_tokens = sat_sub(prompt_budget() as int, (st + sec) as int);
        assembled(system, secondary, word_truncated(user, (max_user_tokens * 4) as nat))
    }
}

/// What `truncate_prompt_smartly` sends: the prompt fitted by the parts'
/// token estimates.
pub open spec fn smart_prompt(system: Seq<char>, secondary: Option<Seq<char>>, user: Seq<char>) -> Seq<
    char,
> {
    fitted_prompt(
        system,
        secondary,
        user,
        estimated_tokens(system),
        match secondary {
            Some(s) => estimated_tokens(s),
            None => 0,
        },
        estimated_tokens(user),
    )
}

/// Fits a prompt into the context window given the token estimates of its
/// parts (the secondary prompt's counting as 0 when there is none), cutting
/// only the user part.
pub fn fit_prompt(
    system_prompt: &str,
    secondary_prompt: Option<&str>,
    user_prompt: &str,
    system_tokens: usize,
    secondary_tokens: usize,
    user_tokens: usize,
) -> (r: String)
    ensures
        r@ == fitted_prompt(
            system_prompt@,
            opt_view(secondary_prompt),
            user_prompt@,
            system_tokens as nat,
            secondary_tokens as nat,
            user_tokens as nat,
        ),
{
    let total_tokens: u128 = system_tokens as u128 + secondary_tokens as u128 + user_tokens as u128;
    let available_tokens: u128 = (MAX_CONTEXT_TOKENS - RESPONSE_TOKENS) as u128;
    if total_tokens <= available_tokens {
        return assemble_prompt(system_prompt, secondary_prompt, user_prompt);
    }
    let fixed: u128 = system_tokens as u128 + secondary_tokens as u128;
    let max_user_tokens: u128 = if available_tokens >= fixed {
        available_tokens - fixed
    } else {
        0
    };
    let max_user_chars: usize = (max_user_tokens * 4) as usize;
    let truncated_user = truncate_at_word_boundary(user_prompt, max_user_chars);
    assemble_prompt(system_prompt, secondary_prompt, truncated_user.as_str())
}

/// Fits a prompt into the context window, cutting only the user part so the
/// system and secondary prompts always arrive whole and exactly once.
pub fn truncate_prompt_smartly(
    system_prompt: &str,
    secondary_prompt: Option<&str>,
    user_prompt: &str,
) -> (r: String)
    ensures
        r@ == smart_prompt(system_prompt@, opt_view(secondary_prompt), user_prompt@),
{
    let system_tokens = estimate_tokens(system_prompt);
    let secondary_tokens: usize = match secondary_prompt {
        Some(s) => estimate_tokens(s),
        None => 0,
    };
    let user_tokens = estimate_tokens(user_prompt);
    fit_prompt(system_prompt, secondary_prompt, user_prompt, system_tokens, secondary_tokens, user_tokens)
}

/// A text cut at a word boundary keeps to the length asked for (once that
/// has room for the `"..."`), and is a prefix of the text followed by
/// `"..."` unless the text was short enough to keep whole.
pub proof fn law_word_truncated_fits(s: Seq<char>, max: nat)
    ensures
        max >= 3 ==> word_truncated(s, max).len() <= max,
        s.len() <= max ==> word_truncated(s, max) == s,
        s.len() > max ==> {
            let r = word_truncated(s, max);
            &&& r.len() >= 3
            &&& r == s.take(r.len() - 3) + "..."@
        },
{
    reveal_strlit("...");
    if s.len() > max {
        let end = sat_sub(max as int, 3);
        lemma_last_break(s, sat_sub(end, 100), end);
        let cut = match last_break(s, sat_sub(end, 100), end) {
            Some(i) => i,
            None => end,
        };
        let r = word_truncated(s, max);
        assert(r == s.take(cut) + "..."@);
        assert(r.len() == cut + 3);
        assert(r.take(r.len() - 3) =~= s.take(cut));
    }
}

/// The prompt sent keeps the system and secondary prompts whole, once, at
/// its start, whatever the token estimates: only the user part may be cut,
/// and then to a prefix of it followed by `"..."`.
pub proof fn law_fitted_prompt_cuts_only_the_user_part(
    system: Seq<char>,
    secondary: Option<Seq<char>>,
    user: Seq<char>,
    st: nat,
    sec: nat,
    ut: nat,
)
    ensures
        exists|u: Seq<char>|
            fitted_prompt(system, secondary, user, st, sec, ut) == assembled(system, secondary, u)
                && (u == user || (u.len() >= 3 && u == user.take(u.len() - 3) + "..."@)),
{
    if st + sec + ut <= prompt_budget() {
        assert(fitted_prompt(system, secondary, user, st, sec, ut) == assembled(system, secondary, user));
    } else {
        let max_user_tokens = sat_sub(prompt_budget() as int, (st + sec) as int);
        let k = (max_user_tokens * 4) as nat;
        let u = word_truncated(user, k);
        law_word_truncated_fits(user, k);
        assert(fitted_prompt(system, secondary, user, st, sec, ut) == assembled(system, secondary, u));
        if user.len() <= k {
            assert(u == user);
        }
    }
}

/// A text cut at a word boundary for `max` characters has at most `max` of
/// them, or three (the `"..."`) when `max` leaves no room.
proof fn lemma_word_truncated_len(s: Seq<char>, max: nat)
    ensures
        word_truncated(s, max).len() <= if max >= 3 {
            max
        } else {
            3
        },
{
    reveal_strlit("...");
    if s.len() > max {
        let end = sat_sub(max as int, 3);
        lemma_last_break(s, sat_sub(end, 100), end);
    }
}

/// Law: when the parts' estimates exceed the budget, the user part is cut to
/// the characters the budget leaves after both the system and the secondary
/// prompt, four per token (at least room for the `"..."`), and the system
/// and secondary prompts arrive whole.
pub proof fn law_over_budget_user_part_fits_what_is_left(
    system: Seq<char>,
    secondary: Option<Seq<char>>,
    user: Seq<char>,
    st: nat,
    sec: nat,
    ut: nat,
)
    requires
        st + sec + ut > prompt_budget(),
    ensures
        exists|u: Seq<char>|
            #![trigger assembled(system, secondary, u)]
            fitted_prompt(system, secondary, user, st, sec, ut) == assembled(system, secondary, u)
                && u.len() <= if prompt_budget() >= st + sec + 1 {
                4 * (prompt_budget() - st - sec)
            } else {
                3
            } && (u == user || (u.len() >= 3 && u == user.take(u.len() - 3) + "..."@)),
{
    let k = (sat_sub(prompt_budget() as int, (st + sec) as int) * 4) as nat;
    let u = word_truncated(user, k);
    lemma_word_truncated_len(user, k);
    law_word_truncated_fits(user, k);
    assert(fitted_prompt(system, secondary, user, st, sec, ut) == assembled(system, secondary, u));
}

/// A prompt whose parts' estimates fit the budget is sent as assembled.
pub proof fn law_fitting_prompt_is_untouched(
    system: Seq<char>,
    secondary: Option<Seq<char>>,
    user: Seq<char>,
    st: nat,
    sec: nat,
    ut: nat,
)
    requires
        st + sec + ut <= prompt_budget(),
    ensures
        fitted_prompt(system, secondary, user, st, sec, ut) == assembled(system, secondary, user),
{
}

/// Tokens to ask the model for: what the context window leaves after the
/// prompt, less a margin of 100, at most 4096 and never below the floor.
pub open spec fn response_budget(prompt_tokens: nat) -> nat {
    let left = sat_sub(sat_sub(MAX_CONTEXT_TOKENS as int, prompt_tokens as int), 100);
    let capped = if left < 4096 {
        left
    } else {
        4096
    };
    if capped > MIN_RESPONSE_TOKENS {
        capped as nat
    } else {
        MIN_RESPONSE_TOKENS as nat
    }
}

pub fn num_predict(estimated_prompt_tokens: usize) -> (n: usize)
    ensures
        n == response_budget(estimated_prompt_tokens as nat),
        MIN_RESPONSE_TOKENS <= n <= 4096,
{
    let available_for_response: usize = if MAX_CONTEXT_TOKENS >= estimated_prompt_tokens {
        MAX_CONTEXT_TOKENS - estimated_prompt_tokens
    } else {
        0
    };
    let margin: usize = if available_for_response >= 100 {
        available_for_response - 100
    } else {
        0
    };
    let capped: usize = if margin < 4096 {
        margin
    } else {
        4096
    };
    if capped > MIN_RESPONSE_TOKENS {
        capped
    } else {
        MIN_RESPONSE_TOKENS
    }
}

// ---------------------------------------------------------------------------
// Cleaning replies
// ---------------------------------------------------------------------------

/// The first `>` at or after `i`.
pub open spec fn gt_from(s: Seq<char>, i: int) -> Option<int>
    decreases s.len() - i,
{
    if i < 0 || i >= s.len() {
        None
    } else if s[i] == '>' {
        Some(i)
    } else {
        gt_from(s, i + 1)
    }
}

pub proof fn lemma_gt_from(s: Seq<char>, i: int)
    ensures
        gt_from(s, i) matches Some(j) ==> i <= j < s.len() && s[j] == '>',
    decreases s.len() - i,
{
    if 0 <= i < s.len() && s[i] != '>' {
        lemma_gt_from(s, i + 1);
    }
}

/// A tag starts at `i`: `<`, at least one character other than `>`, then
/// `>`. Yields the position of the closing `>`.
pub open spec fn tag_at(s: Seq<char>, i: int) -> Option<int> {
    if 0 <= i < s.len() && s[i] == '<' {
        match gt_from(s, i + 1) {
            Some(j) => if j > i + 1 {
                Some(j)
            } else {
                None
            },
            None => None,
        }
    } else {
        None
    }
}

/// `s` from `i` on with every tag (in regular-expression notation `<[^>]+>`,
/// matched left to right without overlap) removed.
pub open spec fn untagged_from(s: Seq<char>, i: int) -> Seq<char>
    decreases s.len() - i,
{
    if i < 0 || i >= s.len() {
        Seq::<char>::empty()
    } else {
        match tag_at(s, i) {
            Some(j) => {
                proof {
                    lemma_gt_from(s, i + 1);
                }
                untagged_from(s, j + 1)
            },
            None => seq![s[i]] + untagged_from(s, i + 1),
        }
    }
}

pub open spec fn untagged(s: Seq<char>) -> Seq<char> {
    untagged_from(s, 0)
}

proof fn lemma_gt_from_none(s: Seq<char>, i: int)
    requires
        forall|k: int| i <= k < s.len() ==> s[k] != '>',
    ensures
        gt_from(s, i) is None,
    decreases s.len() - i,
{
    if 0 <= i < s.len() {
        lemma_gt_from_none(s, i + 1);
    }
}

proof fn lemma_gt_from_shift(c: char, o: Seq<char>, p: int)
    requires
        0 <= p,
    ensures
        gt_from(seq![c] + o, p + 1) == match gt_from(o, p) {
            Some(j) => Some(j + 1),
            None => None::<int>,
        },
    decreases o.len() - p,
{
    let t = seq![c] + o;
    if p < o.len() {
        assert(t[p + 1] == o[p]);
        if o[p] != '>' {
            lemma_gt_from_shift(c, o, p + 1);
        }
    }
}

proof fn lemma_untagged_from_source(s: Seq<char>, i: int)
    requires
        0 <= i,
    ensures
        forall|q: int|
            0 <= q < untagged_from(s, i).len() ==> exists|k: int|
                i <= k < s.len() && #[trigger] untagged_from(s, i)[q] == s[k],
    decreases s.len() - i,
{
    if i < s.len() {
        match tag_at(s, i) {
            Some(j) => {
                lemma_gt_from(s, i + 1);
                lemma_untagged_from_source(s, j + 1);
                let o = untagged_from(s, i);
                let r = untagged_from(s, j + 1);
                assert(o == r);
                assert forall|q: int| 0 <= q < o.len() implies exists|k: int|
                    i <= k < s.len() && #[trigger] o[q] == s[k] by {
                    let k = choose|k: int| j + 1 <= k < s.len() && r[q] == s[k];
                    assert(o[q] == s[k]);
                }
            },
            None => {
                lemma_untagged_from_source(s, i + 1);
                let o = untagged_from(s, i);
                let r = untagged_from(s, i + 1);
                assert forall|q: int| 0 <= q < o.len() implies exists|k: int|
                    i <= k < s.len() && #[trigger] o[q] == s[k] by {
                    if q == 0 {
                        assert(o[0] == s[i]);
                    } else {
                        assert(o[q] == r[q - 1]);
                        let k = choose|k: int| i + 1 <= k < s.len() && r[q - 1] == s[k];
                        assert(o[q] == s[k]);
                    }
                }
            },
        }
    }
}

proof fn lemma_untagged_from_has_no_tag(s: Seq<char>, i: int)
    requires
        0 <= i,
    ensures
        forall|p: int| tag_at(untagged_from(s, i), p) is None,
    decreases s.len() - i,
{
    if i < s.len() {
        match tag_at(s, i) {
            Some(j) => {
                lemma_gt_from(s, i + 1);
                lemma_untagged_from_has_no_tag(s, j + 1);
            },
            None => {
                lemma_untagged_from_has_no_tag(s, i + 1);
                let o = untagged_from(s, i);
                let r = untagged_from(s, i + 1);
                assert(o == seq![s[i]] + r);
                assert forall|p: int| tag_at(o, p) is None by {
                    if 1 <= p < o.len() && o[p] == '<' {
                        assert(o[p] == r[p - 1]);
                        lemma_gt_from_shift(s[i], r, p);
                        assert(tag_at(r, p - 1) is None);
                    } else if p == 0 && o[0] == '<' {
                        lemma_gt_from_shift(s[i], r, 0);
                        match gt_from(s, i + 1) {
                            None => {
                                lemma_untagged_from_source(s, i + 1);
                                assert forall|k: int| 0 <= k < r.len() implies r[k] != '>' by {
                                    let m = choose|m: int| i + 1 <= m < s.len() && #[trigger] r[k]
                                        == s[m];
                                    if r[k] == '>' {
                                        lemma_gt_from_before(s, i + 1, m);
                                    }
                                }
                                lemma_gt_from_none(r, 0);
                            },
                            Some(g) => {
                                lemma_gt_from(s, i + 1);
                                assert(s[i] == '<');
                                assert(g == i + 1);
                                assert(s[i + 1] == '>');
                                assert(tag_at(s, i + 1) is None);
                                assert(r == seq![s[i + 1]] + untagged_from(s, i + 2));
                                assert(r[0] == '>');
                            },
                        }
                    }
                }
            },
        }
    }
}

proof fn lemma_gt_from_before(s: Seq<char>, i: int, m: int)
    requires
        0 <= i <= m < s.len(),
        s[m] == '>',
    ensures
        gt_from(s, i) is Some,
    decreases m - i,
{
    if s[i] != '>' {
        lemma_gt_from_before(s, i + 1, m);
    }
}

/// What `remove_xml_tags` leaves holds no tag: every `<` left is either
/// never closed or closed at once by `>`.
pub proof fn law_untagged_has_no_tags(s: Seq<char>)
    ensures
        forall|p: int| tag_at(untagged(s), p) is None,
{
    lemma_untagged_from_has_no_tag(s, 0);
}

fn gt_from_exec(s: &[char], i: usize) -> (r: Option<usize>)
    ensures
        r matches Some(j) ==> gt_from(s@, i as int) == Some(j as int),
        r is None ==> gt_from(s@, i as int) is None,
{
    let mut k = i;
    while k < s.len()
        invariant
            i <= k,
            gt_from(s@, k as int) == gt_from(s@, i as int),
        decreases s@.len() - k,
    {
        if s[k] == '>' {
            return Some(k);
        }
        k = k + 1;
    }
    None
}

/// Removes markup tags such as `<think>` from a model's reply.
pub fn remove_xml_tags(input: &str) -> (r: String)
    ensures
        r@ == untagged(input@),
{
    let s = chars_of(input);
    let mut out: Vec<char> = Vec::new();
    let mut i: usize = 0;
    while i < s.len()
        invariant
            i <= s@.len(),
            out@ + untagged_from(s@, i as int) == untagged(s@),
        decreases s@.len() - i,
    {
        let mut matched = false;
        if s[i] == '<' {
            match gt_from_exec(s.as_slice(), i + 1) {
                Some(j) => {
                    if j > i + 1 {
                        proof {
                            lemma_gt_from(s@, i + 1);
                        }
                        i = j + 1;
                        matched = true;
                    }
                },
                None => {},
            }
        }
        if !matched {
            let ghost before = out@;
            let ghost at = i as int;
            out.push(s[i]);
            i = i + 1;
            assert(out@ + untagged_from(s@, i as int) =~= before + (seq![s@[at]] + untagged_from(
                s@,
                i as int,
            )));
        }
    }
    assert(out@ + untagged_from(s@, i as int) =~= out@);
    string_of(out.as_slice())
}

// ---------------------------------------------------------------------------
// Choosing a model
// ---------------------------------------------------------------------------

/// `exclude` names the model.
pub open spec fn excluded(exclude: Seq<String>, model: String) -> bool {
    exists|k: int| 0 <= k < exclude.len() && #[trigger] exclude[k]@ == model@
}

/// Indices of the models not excluded, in order.
pub open spec fn candidates(models: Seq<String>, exclude: Seq<String>, n: int) -> Seq<int>
    decreases n,
{
    if n <= 0 {
        Seq::<int>::empty()
    } else {
        let prev = candidates(models, exclude, n - 1);
        if excluded(exclude, models[n - 1]) {
            prev
        } else {
            prev.push(n - 1)
        }
    }
}

/// The models drawn from: those not excluded, or all of them when every
/// model is excluded.
pub open spec fn model_pool_spec(models: Seq<String>, exclude: Seq<String>) -> Seq<int> {
    let c = candidates(models, exclude, models.len() as int);
    if c.len() == 0 {
        Seq::new(models.len(), |i: int| i)
    } else {
        c
    }
}

proof fn lemma_candidates(models: Seq<String>, exclude: Seq<String>, n: int)
    requires
        0 <= n <= models.len(),
    ensures
        candidates(models, exclude, n).len() <= n,
        forall|k: int|
            0 <= k < candidates(models, exclude, n).len() ==> 0 <= #[trigger] candidates(
                models,
                exclude,
                n,
            )[k] < n && !excluded(exclude, models[candidates(models, exclude, n)[k]]),
        forall|i: int|
            0 <= i < n && !excluded(exclude, #[trigger] models[i]) ==> candidates(
                models,
                exclude,
                n,
            ).contains(i),
    decreases n,
{
    if n > 0 {
        lemma_candidates(models, exclude, n - 1);
        let prev = candidates(models, exclude, n - 1);
        assert forall|i: int| 0 <= i < n && !excluded(exclude, #[trigger] models[i]) implies candidates(
            models,
            exclude,
            n,
        ).contains(i) by {
            if i < n - 1 {
                let k = choose|k: int| 0 <= k < prev.len() && prev[k] == i;
                if !excluded(exclude, models[n - 1]) {
                    assert(prev.push(n - 1)[k] == i);
                }
            } else {
                assert(prev.push(n - 1)[prev.len() as int] == i);
            }
        }
    }
}

fn is_excluded(exclude: &[String], model: &String) -> (b: bool)
    ensures
        b == excluded(exclude@, *model),
{
    let mut k: usize = 0;
    while k < exclude.len()
        invariant
            k <= exclude@.len(),
            forall|j: int| 0 <= j < k ==> #[trigger] exclude@[j]@ != model@,
        decreases exclude@.len() - k,
    {
        if exclude[k] == *model {
            return true;
        }
        k = k + 1;
    }
    false
}

/// Indices of the models to draw from.
pub fn model_pool(models: &[String], exclude: &[String]) -> (r: Vec<usize>)
    ensures
        r@.len() == model_pool_spec(models@, exclude@).len(),
        forall|k: int|
            0 <= k < r@.len() ==> #[trigger] r@[k] as int == model_pool_spec(models@, exclude@)[k],
{
    let mut c: Vec<usize> = Vec::new();
    let mut i: usize = 0;
    while i < models.len()
        invariant
            i <= models@.len(),
            c@.len() == candidates(models@, exclude@, i as int).len(),
            forall|k: int|
                0 <= k < c@.len() ==> #[trigger] c@[k] as int == candidates(
                    models@,
                    exclude@,
                    i as int,
                )[k],
        decreases models@.len() - i,
    {
        if !is_excluded(exclude, &models[i]) {
            c.push(i);
        }
        i = i + 1;
    }
    if c.len() == 0 {
        let mut all: Vec<usize> = Vec::new();
        let mut j: usize = 0;
        while j < models.len()
            invariant
                j <= models@.len(),
                all@.len() == j,
                forall|k: int| 0 <= k < j ==> #[trigger] all@[k] as int == k,
            decreases models@.len() - j,
        {
            all.push(j);
            j = j + 1;
        }
        all
    } else {
        c
    }
}

/// A uniformly drawn index below `n`, from the thread-local generator.
/// Nothing about which index comes back is stated but its range.
#[verifier::external_body]
fn random_below(n: usize) -> (r: usize)
    requires
        n > 0,
    ensures
        r < n,
{
    rand::rng().random_range(0..n)
}

/// The model in position `roll` (taken modulo the pool's size) of the pool.
pub fn pick_model_at<'a>(models: &'a [String], exclude: &[String], roll: usize) -> (r: Option<
    &'a str,
>)
    ensures
        models@.len() == 0 <==> r is None,
        r matches Some(m) ==> {
            let pool = model_pool_spec(models@, exclude@);
            m@ == models@[pool[(roll as int) % pool.len() as int]]@
        },
{
    if models.len() == 0 {
        return None;
    }
    let pool = model_pool(models, exclude);
    proof {
        lemma_candidates(models@, exclude@, models@.len() as int);
    }
    let idx = pool[roll % pool.len()];
    Some(models[idx].as_str())
}

/// Picks a model at random, preferring those not in `exclude` (models that
/// already gave an unusable reply); when every model is excluded the whole
/// list is drawn from again. None when there is no model at all.
pub fn pick_random_model_from<'a>(models: &'a [String], exclude: &[String]) -> (r: Option<&'a str>)
    ensures
        models@.len() == 0 <==> r is None,
        r matches Some(m) ==> exists|i: int|
            0 <= i < models@.len() && m@ == #[trigger] models@[i]@ && ((exists|j: int|
                0 <= j < models@.len() && !excluded(exclude@, #[trigger] models@[j]))
                ==> !excluded(exclude@, models@[i])),
{
    if models.len() == 0 {
        return None;
    }
    let pool = model_pool(models, exclude);
    proof {
        lemma_candidates(models@, exclude@, models@.len() as int);
    }
    let k = random_below(pool.len());
    let r = pick_model_at(models, exclude, k);
    proof {
        let ps = model_pool_spec(models@, exclude@);
        let c = candidates(models@, exclude@, models@.len() as int);
        assert((k as int) % (ps.len() as int) == k as int) by (nonlinear_arith)
            requires
                0 <= k < ps.len(),
        ;
        let idx = ps[k as int];
        assert(0 <= idx < models@.len());
        if c.len() > 0 {
            assert(!excluded(exclude@, models@[c[k as int]]));
        } else {
            assert forall|j: int| 0 <= j < models@.len() implies excluded(
                exclude@,
                #[trigger] models@[j],
            ) by {
                if !excluded(exclude@, models@[j]) {
                    assert(c.contains(j));
                }
            }
        }
        assert(models@[idx]@ == models@[idx]@);
    }
    r
}

/// A model for the next request: a random pick, or the default model when
/// none is configured.
pub fn pick_random_model<'a>(models: &'a [String], exclude: &[String]) -> (r: &'a str)
    ensures
        models@.len() == 0 ==> r@ == DEFAULT_MODEL@,
        models@.len() > 0 ==> exists|i: int|
            0 <= i < models@.len() && r@ == #[trigger] models@[i]@ && ((exists|j: int|
                0 <= j < models@.len() && !excluded(exclude@, #[trigger] models@[j]))
                ==> !excluded(exclude@, models@[i])),
{
    match pick_random_model_from(models, exclude) {
        Some(m) => m,
        None => DEFAULT_MODEL,
    }
}

// ---------------------------------------------------------------------------
// Chat histories
// ---------------------------------------------------------------------------

pub open spec fn message_lines(messages: Seq<(String, String)>) -> Seq<char>
    decreases messages.len(),
{
    if messages.len() == 0 {
        Seq::<char>::empty()
    } else {
        message_lines(messages.drop_last()) + messages.last().0@ + ": "@ + messages.last().1@
            + "\n"@
    }
}

/// The transcript sent to the model: one `author: message` line per earlier
/// message, the new message, and the bot's name as the start of its turn.
pub open spec fn chat_transcript(
    messages: Seq<(String, String)>,
    author: Seq<char>,
    input: Seq<char>,
    bot_name: Seq<char>,
) -> Seq<char> {
    message_lines(messages) + author + ": "@ + input + "\n"@ + bot_name + ": "@
}

pub fn build_chat_history(
    messages: &[(String, String)],
    author: &str,
    input: &str,
    bot_name: &str,
) -> (r: String)
    ensures
        r@ == chat_transcript(messages@, author@, input@, bot_name@),
{
    let mut out: Vec<char> = Vec::new();
    let mut i: usize = 0;
    while i < messages.len()
        invariant
            i <= messages@.len(),
            out@ == message_lines(messages@.take(i as int)),
        decreases messages@.len() - i,
    {
        assert(messages@.take(i + 1).drop_last() =~= messages@.take(i as int));
        let ghost before = out@;
        push_str_chars(&mut out, messages[i].0.as_str());
        push_str_chars(&mut out, ": ");
        push_str_chars(&mut out, messages[i].1.as_str());
        push_str_chars(&mut out, "\n");
        i = i + 1;
        assert(out@ =~= message_lines(messages@.take(i as int)));
    }
    assert(messages@.take(i as int) =~= messages@);
    let ghost lines = out@;
    push_str_chars(&mut out, author);
    push_str_chars(&mut out, ": ");
    push_str_chars(&mut out, input);
    push_str_chars(&mut out, "\n");
    push_str_chars(&mut out, bot_name);
    push_str_chars(&mut out, ": ");
    assert(out@ =~= chat_transcript(messages@, author@, input@, bot_name@));
    string_of(out.as_slice())
}

/// A channel's exchanges, each (author, message, bot's reply), unrolled into
/// messages: the author's, then the bot's.
pub open spec fn exchange_messages(
    history: Seq<(String, String, String)>,
    bot_name: Seq<char>,
) -> Seq<(Seq<char>, Seq<char>)>
    decreases history.len(),
{
    if history.len() == 0 {
        Seq::empty()
    } else {
        let (a, m, b) = history.last();
        exchange_messages(history.drop_last(), bot_name).push((a@, m@)).push((bot_name, b@))
    }
}

pub open spec fn message_views(messages: Seq<(String, String)>) -> Seq<(Seq<char>, Seq<char>)> {
    messages.map_values(|m: (String, String)| (m.0@, m.1@))
}

pub fn history_messages(history: &[(String, String, String)], bot_name: &str) -> (r: Vec<
    (String, String),
>)
    ensures
        message_views(r@) == exchange_messages(history@, bot_name@),
{
    let mut r: Vec<(String, String)> = Vec::new();
    let mut i: usize = 0;
    while i < history.len()
        invariant
            i <= history@.len(),
            message_views(r@) == exchange_messages(history@.take(i as int), bot_name@),
        decreases history@.len() - i,
    {
        assert(history@.take(i + 1).drop_last() =~= history@.take(i as int));
        let (a, m, b) = &history[i];
        r.push((a.clone(), m.clone()));
        r.push((String::from_str(bot_name), b.clone()));
        i = i + 1;
        assert(message_views(r@) =~= exchange_messages(history@.take(i as int), bot_name@));
    }
    assert(history@.take(i as int) =~= history@);
    r
}

/// Exchanges where only the user's message and the bot's reply were kept,
/// each written under the current author's name and as `Assistant`.
pub open spec fn assistant_exchange_lines(
    history: Seq<(String, String)>,
    author: Seq<char>,
) -> Seq<char>
    decreases history.len(),
{
    if history.len() == 0 {
        Seq::<char>::empty()
    } else {
        assistant_exchange_lines(history.drop_last(), author) + author + ": "@
            + history.last().0@ + "\nAssistant: "@ + history.last().1@ + "\n"@
    }
}

pub open spec fn assistant_transcript(
    history: Seq<(String, String)>,
    author: Seq<char>,
    input: Seq<char>,
) -> Seq<char> {
    assistant_exchange_lines(history, author) + author + ": "@ + input + "\nAssistant: "@
}

/// A transcript in the plain form: the user's turns under the current
/// author's name and the replies as `Assistant`.
pub fn assistant_history_prompt(history: &[(String, String)], author: &str, input: &str) -> (r:
    String)
    ensures
        r@ == assistant_transcript(history@, author@, input@),
{
    let mut out: Vec<char> = Vec::new();
    let mut i: usize = 0;
    while i < history.len()
        invariant
            i <= history@.len(),
            out@ == assistant_exchange_lines(history@.take(i as int), author@),
        decreases history@.len() - i,
    {
        assert(history@.take(i + 1).drop_last() =~= history@.take(i as int));
        push_str_chars(&mut out, author);
        push_str_chars(&mut out, ": ");
        push_str_chars(&mut out, history[i].0.as_str());
        push_str_chars(&mut out, "\nAssistant: ");
        push_str_chars(&mut out, history[i].1.as_str());
        push_str_chars(&mut out, "\n");
        i = i + 1;
        assert(out@ =~= assistant_exchange_lines(history@.take(i as int), author@));
    }
    assert(history@.take(i as int) =~= history@);
    push_str_chars(&mut out, author);
    push_str_chars(&mut out, ": ");
    push_str_chars(&mut out, input);
    push_str_chars(&mut out, "\nAssistant: ");
    assert(out@ =~= assistant_transcript(history@, author@, input@));
    string_of(out.as_slice())
}

pub open spec fn run_on_lines(chat: Seq<(String, String)>) -> Seq<char>
    decreases chat.len(),
{
    if chat.len() == 0 {
        Seq::<char>::empty()
    } else {
        run_on_lines(chat.drop_last()) + chat.last().0@ + ": "@ + chat.last().1@
    }
}

/// A channel's chat in the plain form: each `author: message` written
/// straight after the previous one, then the new message and the
/// `Assistant` turn.
pub fn assistant_chat_prompt(chat: &[(String, String)], author: &str, input: &str) -> (r: String)
    ensures
        r@ == run_on_lines(chat@) + author@ + ": "@ + input@ + "\nAssistant: "@,
{
    let mut out: Vec<char> = Vec::new();
    let mut i: usize = 0;
    while i < chat.len()
        invariant
            i <= chat@.len(),
            out@ == run_on_lines(chat@.take(i as int)),
        decreases chat@.len() - i,
    {
        assert(chat@.take(i + 1).drop_last() =~= chat@.take(i as int));
        push_str_chars(&mut out, chat[i].0.as_str());
        push_str_chars(&mut out, ": ");
        push_str_chars(&mut out, chat[i].1.as_str());
        i = i + 1;
        assert(out@ =~= run_on_lines(chat@.take(i as int)));
    }
    assert(chat@.take(i as int) =~= chat@);
    push_str_chars(&mut out, author);
    push_str_chars(&mut out, ": ");
    push_str_chars(&mut out, input);
    push_str_chars(&mut out, "\nAssistant: ");
    string_of(out.as_slice())
}

// ---------------------------------------------------------------------------
// Restart and retry
// ---------------------------------------------------------------------------

/// How one request to the model ended.
#[derive(Clone, Copy, PartialEq, Eq, Structural, Debug)]
pub enum AttemptOutcome {
    /// A reply or an error came back in time.
    Finished,
    /// The request timed out.
    TimedOut,
}

/// What to do next.
#[derive(Clone, Copy, PartialEq, Eq, Structural, Debug)]
pub enum RetryDecision {
    /// Report what came back.
    Report,
    /// Restart the model service, wait, and go on with attempt number
    /// `next` (which `may_attempt` may then refuse).
    RestartAndRetry(u8),
}

/// Whether attempt number `attempt` (counting from 0) may be made.
pub fn may_attempt(attempt: u8) -> (b: bool)
    ensures
        b == (attempt < MAX_RESTART_ATTEMPTS),
{
    attempt < MAX_RESTART_ATTEMPTS
}

/// The decision after attempt `attempt` ended with `outcome`: a finished
/// request is reported, a timed-out one leads to a restart of the service
/// and the next attempt.
pub fn after_attempt(attempt: u8, outcome: AttemptOutcome) -> (d: RetryDecision)
    requires
        attempt < MAX_RESTART_ATTEMPTS,
    ensures
        outcome == AttemptOutcome::Finished ==> d == RetryDecision::Report,
        outcome == AttemptOutcome::TimedOut ==> d == RetryDecision::RestartAndRetry(
            (attempt + 1) as u8,
        ),
{
    match outcome {
        AttemptOutcome::Finished => RetryDecision::Report,
        AttemptOutcome::TimedOut => RetryDecision::RestartAndRetry(attempt + 1),
    }
}

pub open spec fn max_attempts_text() -> Seq<char> {
    "Max restart attempts ("@ + decimal(MAX_RESTART_ATTEMPTS as nat) + ") reached for Ollama"@
}

/// The error reported once every attempt has been used.
pub fn max_attempts_message() -> (r: String)
    ensures
        r@ == max_attempts_text(),
{
    let mut out: Vec<char> = Vec::new();
    push_str_chars(&mut out, "Max restart attempts (");
    push_decimal(&mut out, MAX_RESTART_ATTEMPTS as u64);
    push_str_chars(&mut out, ") reached for Ollama");
    string_of(out.as_slice())
}

/// Whether the service manager's status output says the service is active.
pub fn service_is_active(status_output: &str) -> (b: bool)
    ensures
        b == (trim(status_output@) == "active"@),
{
    let t = trim_str(status_output);
    let a = String::from_str("active");
    t == a
}

/// What a restart comes to, from what the service manager reports as the
/// service's status after it: done when, trimmed, it reads `active`;
/// otherwise the error quoting the report as it is.
pub fn restart_outcome(status_output: &str) -> (r: Result<(), String>)
    ensures
        r is Ok <==> trim(status_output@) == "active"@,
        r matches Err(e) ==> e@ == "Ollama service is not active after restart. Status: "@
            + status_output@,
{
    let t = trim_str(status_output);
    let a = String::from_str("active");
    if t == a {
        Ok(())
    } else {
        let mut out = chars_of("Ollama service is not active after restart. Status: ");
        push_str_chars(&mut out, status_output);
        Err(string_of(out.as_slice()))
    }
}

/// The error given when the service manager could not restart the service.
pub fn restart_refused_message(stderr: &str) -> (r: String)
    ensures
        r@ == "Failed to restart Ollama service: "@ + stderr@,
{
    let mut out = chars_of("Failed to restart Ollama service: ");
    push_str_chars(&mut out, stderr);
    string_of(out.as_slice())
}

/// The error given when the model server cannot be reached.
pub const CONNECT_FAILURE: &'static str = "Failed to connect to Ollama API";

/// The error given when the model server's answer is not JSON.
pub const PARSE_FAILURE: &'static str = "Failed to parse Ollama JSON response";

/// The error given when the answer has no text under `response`.
pub const MISSING_RESPONSE: &'static str = "Missing or invalid 'response' field in Ollama output";

/// The error given for an answer with the failure status `code`.
pub fn api_status_message(code: u16) -> (r: String)
    requires
        100 <= code <= 999,
    ensures
        r@ == "Ollama API returned error status: "@ + crate::status::status_text(code),
{
    let mut out = chars_of("Ollama API returned error status: ");
    let status = crate::status::status_display(code);
    push_str_chars(&mut out, status.as_str());
    string_of(out.as_slice())
}

} // verus!
