//! Preparing text for Discord embeds: sanitising, measuring in UTF-16 code
//! units and UTF-8 bytes, truncating, validating against Discord's limits.
use vstd::prelude::*;
use crate::text::{
    byte_len, chars_of, text_fits_in_memory, char_utf16_len, char_utf8_len, collapse_chars, collapse_state, collapse_ws,
    controls_to_spaces, controls_to_spaces_chars, decimal, embeds, ends_with, is_blank, is_blank_str, is_subsequence,
    is_control, is_control_char, is_whitespace_char, is_ws, lemma_utf16_len_append, lemma_utf16_len_prefix, lemma_utf8_len_prefix, lemma_utf8_len_append,
    normalize_spaces, normalize_spaces_chars, occurs_at_exec, push_chars, push_decimal, push_str_chars, slice_chars,
    string_of, trim, trim_chars, utf16_count, utf16_len, utf8_len, utf8_units,
};

verus! {

broadcast use vstd::seq_lib::group_seq_properties;

// Discord counts UTF-16 code units, not characters.
pub const DISCORD_EMBED_TITLE_LIMIT: usize = 256;

pub const DISCORD_EMBED_DESCRIPTION_LIMIT: usize = 4096;

pub const DISCORD_EMBED_FOOTER_LIMIT: usize = 2048;

pub const DISCORD_EMBED_TOTAL_LIMIT: usize = 6000;

pub const TRUNCATION_BUFFER: usize = 50;

/// The colour of the bot's embeds.
pub const EMBED_COLOR: u32 = 0xFF69B4;

/// What the bot answers while it is busy with another request.
pub const BUSY_TEXT: &'static str = "Я занята, напиши минут через десять!";

pub const CONTINUATION_SUFFIX: &'static str = "...";

/// The pre-send check of the HTTP client sums the UTF-8 byte lengths of the
/// embed's parts against the total limit; descriptions are chunked to this
/// budget.
pub const MAX_CHUNK_BYTES: usize = 3600;

pub open spec fn ellipsis() -> Seq<char> {
    seq!['.', '.', '.']
}

fn ellipsis_chars() -> (v: Vec<char>)
    ensures
        v@ == ellipsis(),
{
    let v = chars_of(CONTINUATION_SUFFIX);
    proof {
        reveal_strlit("...");
        assert(v@ =~= ellipsis());
    }
    v
}

// ---------------------------------------------------------------------------
// Measuring
// ---------------------------------------------------------------------------

/// Number of UTF-16 code units of `text`.
pub fn count_utf16(text: &str) -> (n: usize)
    ensures
        n == utf16_len(text@),
{
    // A string's bytes fit in memory, so the counts below cannot overflow.
    text_fits_in_memory(text);
    let v = chars_of(text);
    utf16_count(v.as_slice())
}

/// Shortens a model name for display: a trailing `":latest"` tag is dropped,
/// every other tag is kept since it is part of what names the model.
pub fn compact_model_name(model: &str) -> (r: &str)
    ensures
        r@ == (if ends_with(model@, ":latest"@) {
            model@.take(model@.len() - ":latest"@.len())
        } else {
            model@
        }),
{
    let v = chars_of(model);
    let suffix = chars_of(":latest");
    if v.len() >= suffix.len() && occurs_at_exec(
        v.as_slice(),
        suffix.as_slice(),
        v.len() - suffix.len(),
    ) {
        model.substring_char(0, v.len() - suffix.len())
    } else {
        model
    }
}

// ---------------------------------------------------------------------------
// Truncating to a budget of code units or bytes
// ---------------------------------------------------------------------------

/// The longest prefix of `s` that fits in `max` UTF-16 code units.
pub open spec fn utf16_prefix(s: Seq<char>, max: nat) -> Seq<char>
    decreases s.len(),
{
    if utf16_len(s) <= max {
        s
    } else {
        utf16_prefix(s.drop_last(), max)
    }
}

/// The longest prefix of `s` that fits in `max` UTF-8 bytes.
pub open spec fn utf8_prefix(s: Seq<char>, max: nat) -> Seq<char>
    decreases s.len(),
{
    if utf8_len(s) <= max {
        s
    } else {
        utf8_prefix(s.drop_last(), max)
    }
}

proof fn lemma_utf16_prefix_at(s: Seq<char>, max: nat, k: int)
    requires
        0 <= k <= s.len(),
        utf16_len(s.take(k)) <= max,
        k == s.len() || utf16_len(s.take(k + 1)) > max,
    ensures
        utf16_prefix(s, max) == s.take(k),
    decreases s.len(),
{
    if k == s.len() {
        assert(s.take(k) =~= s);
    } else {
        lemma_utf16_len_prefix(s, k + 1, s.len() as int);
        assert(s.take(s.len() as int) =~= s);
        assert(s.drop_last().take(k) =~= s.take(k));
        if k < s.len() - 1 {
            assert(s.drop_last().take(k + 1) =~= s.take(k + 1));
        }
        lemma_utf16_prefix_at(s.drop_last(), max, k);
    }
}

proof fn lemma_utf8_prefix_at(s: Seq<char>, max: nat, k: int)
    requires
        0 <= k <= s.len(),
        utf8_len(s.take(k)) <= max,
        k == s.len() || utf8_len(s.take(k + 1)) > max,
    ensures
        utf8_prefix(s, max) == s.take(k),
    decreases s.len(),
{
    if k == s.len() {
        assert(s.take(k) =~= s);
    } else {
        lemma_utf8_len_prefix(s, k + 1, s.len() as int);
        assert(s.take(s.len() as int) =~= s);
        assert(s.drop_last().take(k) =~= s.take(k));
        if k < s.len() - 1 {
            assert(s.drop_last().take(k + 1) =~= s.take(k + 1));
        }
        lemma_utf8_prefix_at(s.drop_last(), max, k);
    }
}

/// A prefix that fits is the longest one, and it does fit.
pub proof fn lemma_utf16_prefix_fits(s: Seq<char>, max: nat)
    ensures
        utf16_len(utf16_prefix(s, max)) <= max,
        utf16_prefix(s, max).len() <= s.len(),
        utf16_prefix(s, max) == s.take(utf16_prefix(s, max).len() as int),
    decreases s.len(),
{
    if utf16_len(s) > max {
        assert(s.len() > 0);
        lemma_utf16_prefix_fits(s.drop_last(), max);
        let p = utf16_prefix(s.drop_last(), max);
        assert(s.drop_last().take(p.len() as int) =~= s.take(p.len() as int));
    } else {
        assert(s.take(s.len() as int) =~= s);
    }
}

pub proof fn lemma_utf8_prefix_fits(s: Seq<char>, max: nat)
    ensures
        utf8_len(utf8_prefix(s, max)) <= max,
        utf8_prefix(s, max).len() <= s.len(),
        utf8_prefix(s, max) == s.take(utf8_prefix(s, max).len() as int),
    decreases s.len(),
{
    if utf8_len(s) > max {
        assert(s.len() > 0);
        lemma_utf8_prefix_fits(s.drop_last(), max);
        let p = utf8_prefix(s.drop_last(), max);
        assert(s.drop_last().take(p.len() as int) =~= s.take(p.len() as int));
    } else {
        assert(s.take(s.len() as int) =~= s);
    }
}

/// The longest prefix of `s` within `max` UTF-16 code units.
pub fn truncate_utf16_chars(s: &[char], max: usize) -> (r: Vec<char>)
    ensures
        r@ == utf16_prefix(s@, max as nat),
{
    let mut r: Vec<char> = Vec::new();
    let mut count: usize = 0;
    let mut i: usize = 0;
    while i < s.len()
        invariant_except_break
            i <= s@.len(),
            r@ == s@.take(i as int),
            count == utf16_len(s@.take(i as int)),
            count <= max,
        ensures
            r@ == utf16_prefix(s@, max as nat),
        decreases s@.len() - i,
    {
        let u = char_utf16_len(s[i]);
        assert(s@.take(i + 1).drop_last() =~= s@.take(i as int));
        if u > max - count {
            proof {
                lemma_utf16_prefix_at(s@, max as nat, i as int);
            }
            break;
        }
        r.push(s[i]);
        count = count + u;
        i = i + 1;
        proof {
            if i == s@.len() {
                lemma_utf16_prefix_at(s@, max as nat, i as int);
            }
        }
    }
    proof {
        if s@.len() == 0 {
            lemma_utf16_prefix_at(s@, max as nat, 0);
        }
    }
    r
}

/// The longest prefix of `s` within `max` UTF-8 bytes.
pub fn truncate_utf8_chars(s: &[char], max: usize) -> (r: Vec<char>)
    ensures
        r@ == utf8_prefix(s@, max as nat),
{
    let mut r: Vec<char> = Vec::new();
    let mut count: usize = 0;
    let mut i: usize = 0;
    while i < s.len()
        invariant_except_break
            i <= s@.len(),
            r@ == s@.take(i as int),
            count == utf8_len(s@.take(i as int)),
            count <= max,
        ensures
            r@ == utf8_prefix(s@, max as nat),
        decreases s@.len() - i,
    {
        let u = char_utf8_len(s[i]);
        assert(s@.take(i + 1).drop_last() =~= s@.take(i as int));
        if u > max - count {
            proof {
                lemma_utf8_prefix_at(s@, max as nat, i as int);
            }
            break;
        }
        r.push(s[i]);
        count = count + u;
        i = i + 1;
        proof {
            if i == s@.len() {
                lemma_utf8_prefix_at(s@, max as nat, i as int);
            }
        }
    }
    proof {
        if s@.len() == 0 {
            lemma_utf8_prefix_at(s@, max as nat, 0);
        }
    }
    r
}

/// The longest prefix of `text` that fits in `max_bytes` UTF-8 bytes; it
/// never cuts a character in two.
pub fn truncate_to_byte_budget(text: &str, max_bytes: usize) -> (r: String)
    ensures
        r@ == utf8_prefix(text@, max_bytes as nat),
        utf8_len(r@) <= max_bytes,
        r@ == text@.take(r@.len() as int),
{
    proof {
        lemma_utf8_prefix_fits(text@, max_bytes as nat);
    }
    if max_bytes == 0 {
        proof {
            lemma_utf8_prefix_at(text@, 0, 0);
            if text@.len() > 0 {
                assert(text@.take(1).drop_last() =~= text@.take(0));
            }
        }
        return String::new();
    }
    let v = chars_of(text);
    let r = truncate_utf8_chars(v.as_slice(), max_bytes);
    string_of(r.as_slice())
}

/// The longest prefix of `text` that fits in `max_utf16_len` UTF-16 code units.
pub fn truncate_utf16(text: &str, max_utf16_len: usize) -> (r: String)
    ensures
        r@ == utf16_prefix(text@, max_utf16_len as nat),
        utf16_len(r@) <= max_utf16_len,
        r@ == text@.take(r@.len() as int),
{
    proof {
        lemma_utf16_prefix_fits(text@, max_utf16_len as nat);
    }
    let v = chars_of(text);
    let r = truncate_utf16_chars(v.as_slice(), max_utf16_len);
    string_of(r.as_slice())
}

// ---------------------------------------------------------------------------
// Sanitising
// ---------------------------------------------------------------------------

/// Characters that survive sanitising: no control characters but newline and
/// tab, no zero-width or directional formatting characters, no byte order
/// mark.
pub open spec fn discord_safe_char(c: char) -> bool {
    let u = c as u32;
    &&& !is_control(c) || c == '\n' || c == '\t'
    &&& !(0x200B <= u <= 0x200F)
    &&& !(0x202A <= u <= 0x202E)
    &&& u != 0xFEFF
}

pub open spec fn discord_filter(s: Seq<char>) -> Seq<char> {
    s.filter(|c: char| discord_safe_char(c))
}

/// What `sanitize_discord_text` makes of `s`.
pub open spec fn sanitized(s: Seq<char>) -> Seq<char> {
    trim(discord_filter(s))
}

fn is_discord_safe(c: char) -> (b: bool)
    ensures
        b == discord_safe_char(c),
{
    let u = c as u32;
    (!is_control_char(c) || c == '\n' || c == '\t') && !(0x200B <= u && u <= 0x200F) && !(0x202A
        <= u && u <= 0x202E) && u != 0xFEFF
}

pub fn discord_filter_chars(s: &[char]) -> (r: Vec<char>)
    ensures
        r@ == discord_filter(s@),
{
    let mut r: Vec<char> = Vec::new();
    let mut i: usize = 0;
    while i < s.len()
        invariant
            i <= s@.len(),
            r@ == discord_filter(s@.take(i as int)),
        decreases s@.len() - i,
    {
        proof {
            assert(s@.take(i + 1) =~= s@.take(i as int).push(s@[i as int]));
            s@.take(i as int).lemma_filter_push(s@[i as int], |c: char| discord_safe_char(c));
        }
        if is_discord_safe(s[i]) {
            r.push(s[i]);
        }
        i = i + 1;
    }
    assert(s@.take(i as int) =~= s@);
    r
}

/// Removes characters Discord renders badly or rejects (control characters
/// other than newline and tab, zero-width and directional marks, the byte
/// order mark) and trims surrounding whitespace.
pub fn sanitize_discord_text(text: &str) -> (r: String)
    ensures
        r@ == sanitized(text@),
{
    let v = chars_of(text);
    let f = discord_filter_chars(v.as_slice());
    let t = trim_chars(f.as_slice());
    string_of(t.as_slice())
}

pub fn sanitize_chars(s: &[char]) -> (r: Vec<char>)
    ensures
        r@ == sanitized(s@),
{
    let f = discord_filter_chars(s);
    trim_chars(f.as_slice())
}

// ---------------------------------------------------------------------------
// Truncating for display
// ---------------------------------------------------------------------------

/// Position of the last space in `s`, if any.
pub open spec fn last_space(s: Seq<char>) -> Option<int>
    decreases s.len(),
{
    if s.len() == 0 {
        None
    } else if s.last() == ' ' {
        Some(s.len() - 1)
    } else {
        last_space(s.drop_last())
    }
}

pub proof fn lemma_last_space_bounds(s: Seq<char>)
    ensures
        last_space(s) matches Some(i) ==> 0 <= i < s.len() && s[i] == ' ',
    decreases s.len(),
{
    if s.len() > 0 && s.last() != ' ' {
        lemma_last_space_bounds(s.drop_last());
    }
}

fn last_space_exec(s: &[char]) -> (r: Option<usize>)
    ensures
        r matches Some(i) ==> last_space(s@) == Some(i as int),
        r is None ==> last_space(s@) is None,
{
    let mut k: usize = s.len();
    while k > 0
        invariant
            k <= s@.len(),
            last_space(s@) == last_space(s@.take(k as int)),
        decreases k,
    {
        assert(s@.take(k as int).drop_last() =~= s@.take(k - 1));
        if s[k - 1] == ' ' {
            return Some(k - 1);
        }
        k = k - 1;
    }
    None
}

pub open spec fn sat_sub(a: nat, b: nat) -> nat {
    if a >= b {
        (a - b) as nat
    } else {
        0
    }
}

/// What `safe_truncate` makes of `text`: control characters become spaces,
/// whitespace is collapsed; if that does not fit in `max` UTF-16 code units it
/// is cut to `max - 3` units, back to the last space when that space lies
/// within the last `TRUNCATION_BUFFER` units, and `"..."` is appended.
pub open spec fn safe_truncated(text: Seq<char>, max: nat) -> Seq<char> {
    let normalized = normalize_spaces(text);
    if max == 0 {
        Seq::<char>::empty()
    } else if utf16_len(normalized) <= max {
        normalized
    } else {
        let cut = sat_sub(max, 3);
        if cut == 0 {
            ellipsis()
        } else {
            word_boundary_cut(utf16_prefix(normalized, cut), cut) + ellipsis()
        }
    }
}

/// `head` cut back to its last space when that space lies within the last
/// `TRUNCATION_BUFFER` code units of the `cut` budget.
pub open spec fn word_boundary_cut(head: Seq<char>, cut: nat) -> Seq<char> {
    match last_space(head) {
        Some(i) => if utf16_len(head.take(i)) > sat_sub(cut, 50) {
            head.take(i)
        } else {
            head
        },
        None => head,
    }
}

fn back_to_word_boundary(head: Vec<char>, cut: usize) -> (r: Vec<char>)
    requires
        utf8_len(head@) <= usize::MAX,
    ensures
        r@ == word_boundary_cut(head@, cut as nat),
{
    match last_space_exec(head.as_slice()) {
        Some(last) => {
            proof {
                lemma_last_space_bounds(head@);
                lemma_utf8_len_prefix(head@, last as int, head@.len() as int);
                assert(head@.take(head@.len() as int) =~= head@);
            }
            let before = slice_chars(head.as_slice(), 0, last);
            let before_len = utf16_count(before.as_slice());
            let floor: usize = if cut >= TRUNCATION_BUFFER {
                cut - TRUNCATION_BUFFER
            } else {
                0
            };
            if before_len > floor {
                before
            } else {
                head
            }
        },
        None => head,
    }
}

pub fn safe_truncate_chars(text: &[char], max_len: usize) -> (r: Vec<char>)
    requires
        utf8_len(text@) <= usize::MAX,
    ensures
        r@ == safe_truncated(text@, max_len as nat),
{
    if max_len == 0 {
        return Vec::new();
    }
    let spaced = controls_to_spaces_chars(text);
    let normalized = collapse_chars(spaced.as_slice());
    proof {
        lemma_normalize_utf8_le(text@);
    }
    let utf16_len_n = utf16_count(normalized.as_slice());
    if utf16_len_n <= max_len {
        return normalized;
    }
    let truncate_at: usize = if max_len >= 3 {
        max_len - 3
    } else {
        0
    };
    if truncate_at == 0 {
        return ellipsis_chars();
    }
    proof {
        lemma_utf16_prefix_fits(normalized@, truncate_at as nat);
        lemma_utf8_len_prefix(
            normalized@,
            utf16_prefix(normalized@, truncate_at as nat).len() as int,
            normalized@.len() as int,
        );
        assert(normalized@.take(normalized@.len() as int) =~= normalized@);
    }
    let head = truncate_utf16_chars(normalized.as_slice(), truncate_at);
    let mut result = back_to_word_boundary(head, truncate_at);
    let suffix = ellipsis_chars();
    push_chars(&mut result, suffix.as_slice());
    result
}

/// Replacing control characters by spaces and collapsing whitespace never
/// lengthens a text.
pub proof fn lemma_normalize_utf8_le(s: Seq<char>)
    ensures
        utf8_len(normalize_spaces(s)) <= utf8_len(s),
{
    lemma_controls_to_spaces_utf8(s);
    lemma_collapse_utf8_le(controls_to_spaces(s));
}

proof fn lemma_controls_to_spaces_utf8(s: Seq<char>)
    ensures
        utf8_len(controls_to_spaces(s)) <= utf8_len(s),
    decreases s.len(),
{
    if s.len() > 0 {
        lemma_controls_to_spaces_utf8(s.drop_last());
        assert(controls_to_spaces(s).drop_last() =~= controls_to_spaces(s.drop_last()));
    }
}

proof fn lemma_utf8_len_push(s: Seq<char>, c: char)
    ensures
        utf8_len(s.push(c)) == utf8_len(s) + utf8_units(c),
{
    assert(s.push(c).drop_last() =~= s);
}

proof fn lemma_collapse_utf8_le(s: Seq<char>)
    ensures
        utf8_len(collapse_ws(s)) + (if collapse_state(s).1 {
            1int
        } else {
            0int
        }) <= utf8_len(s),
    decreases s.len(),
{
    if s.len() > 0 {
        lemma_collapse_utf8_le(s.drop_last());
        let prev = collapse_state(s.drop_last());
        let c = s.last();
        lemma_utf8_len_push(s.drop_last(), c);
        assert(s.drop_last().push(c) =~= s);
        if !is_ws(c) {
            if prev.1 {
                lemma_utf8_len_push(prev.0, ' ');
                lemma_utf8_len_push(prev.0.push(' '), c);
            } else {
                lemma_utf8_len_push(prev.0, c);
            }
        }
    }
}

/// Makes `text` fit in `max_len` UTF-16 code units for display. Control
/// characters become spaces and whitespace runs collapse to one space; a text
/// that still does not fit is cut, preferably at a word boundary near the
/// cut, and ends in `"..."`.
pub fn safe_truncate(text: &str, max_len: usize) -> (r: String)
    ensures
        r@ == safe_truncated(text@, max_len as nat),
{
    // A string's bytes fit in memory, so the counts below cannot overflow.
    text_fits_in_memory(text);
    let v = chars_of(text);
    let r = safe_truncate_chars(v.as_slice(), max_len);
    string_of(r.as_slice())
}

// ---------------------------------------------------------------------------
// Validating an embed
// ---------------------------------------------------------------------------

pub open spec fn too_long_message(part: Seq<char>, len: nat, limit: nat) -> Seq<char> {
    part + " too long: "@ + decimal(len) + " UTF-16 code points (limit: "@ + decimal(limit)
        + ")"@
}

/// The error `validate_embed_content` reports for these parts, if any.
pub open spec fn embed_violation(title: Seq<char>, description: Seq<char>, footer: Seq<char>) -> Option<
    Seq<char>,
> {
    let t = utf16_len(title);
    let d = utf16_len(description);
    let f = utf16_len(footer);
    if is_blank(title) && is_blank(description) {
        Some("Both title and description are empty or whitespace-only"@)
    } else if t > DISCORD_EMBED_TITLE_LIMIT {
        Some(too_long_message("Title"@, t, DISCORD_EMBED_TITLE_LIMIT as nat))
    } else if d > DISCORD_EMBED_DESCRIPTION_LIMIT {
        Some(too_long_message("Description"@, d, DISCORD_EMBED_DESCRIPTION_LIMIT as nat))
    } else if f > DISCORD_EMBED_FOOTER_LIMIT {
        Some(too_long_message("Footer"@, f, DISCORD_EMBED_FOOTER_LIMIT as nat))
    } else if t + d + f > DISCORD_EMBED_TOTAL_LIMIT {
        Some(
            "Total embed content too long: "@ + decimal(t + d + f) + " > "@ + decimal(
                DISCORD_EMBED_TOTAL_LIMIT as nat,
            ) + " UTF-16 code points"@,
        )
    } else {
        None
    }
}

fn too_long(part: &str, len: usize, limit: usize) -> (r: String)
    ensures
        r@ == too_long_message(part@, len as nat, limit as nat),
{
    let mut out: Vec<char> = Vec::new();
    push_str_chars(&mut out, part);
    push_str_chars(&mut out, " too long: ");
    push_decimal(&mut out, len as u64);
    push_str_chars(&mut out, " UTF-16 code points (limit: ");
    push_decimal(&mut out, limit as u64);
    push_str_chars(&mut out, ")");
    string_of(out.as_slice())
}

/// Checks an embed's title, description and footer against Discord's limits
/// (in UTF-16 code units): one of title and description must have content,
/// each part must be within its own limit and all three within the total.
pub fn validate_embed_content(title: &str, description: &str, footer: &str) -> (r: Result<
    (),
    String,
>)
    ensures
        r is Ok <==> embed_violation(title@, description@, footer@) is None,
        r matches Err(e) ==> Some(e@) == embed_violation(title@, description@, footer@),
{
    let title_utf16 = count_utf16(title);
    let desc_utf16 = count_utf16(description);
    let footer_utf16 = count_utf16(footer);
    let title_blank = is_blank_str(title);
    let desc_blank = is_blank_str(description);
    if title_blank && desc_blank {
        return Err(String::from_str("Both title and description are empty or whitespace-only"));
    }
    if title_utf16 > DISCORD_EMBED_TITLE_LIMIT {
        return Err(too_long("Title", title_utf16, DISCORD_EMBED_TITLE_LIMIT));
    }
    if desc_utf16 > DISCORD_EMBED_DESCRIPTION_LIMIT {
        return Err(too_long("Description", desc_utf16, DISCORD_EMBED_DESCRIPTION_LIMIT));
    }
    if footer_utf16 > DISCORD_EMBED_FOOTER_LIMIT {
        return Err(too_long("Footer", footer_utf16, DISCORD_EMBED_FOOTER_LIMIT));
    }
    let total_length = title_utf16 + desc_utf16 + footer_utf16;
    if total_length > DISCORD_EMBED_TOTAL_LIMIT {
        let mut out: Vec<char> = Vec::new();
        push_str_chars(&mut out, "Total embed content too long: ");
        push_decimal(&mut out, total_length as u64);
        push_str_chars(&mut out, " > ");
        push_decimal(&mut out, DISCORD_EMBED_TOTAL_LIMIT as u64);
        push_str_chars(&mut out, " UTF-16 code points");
        return Err(string_of(out.as_slice()));
    }
    Ok(())
}

} // verus!

verus! {

pub proof fn lemma_ellipsis_len()
    ensures
        utf16_len(ellipsis()) == 3,
        utf8_len(ellipsis()) == 3,
        ellipsis().len() == 3,
{
    let e = ellipsis();
    assert(e.drop_last() =~= seq!['.', '.']);
    assert(seq!['.', '.'].drop_last() =~= seq!['.']);
    assert(seq!['.'].drop_last() =~= Seq::<char>::empty());
    assert(seq!['.'].last() == '.');
    assert(('.' as u32) == 0x2E);
    assert(utf16_len(Seq::<char>::empty()) == 0);
    assert(utf8_len(Seq::<char>::empty()) == 0);
    assert(utf16_len(seq!['.']) == 1);
    assert(utf16_len(seq!['.', '.']) == 2);
    assert(utf8_len(seq!['.']) == 1);
    assert(utf8_len(seq!['.', '.']) == 2);
}

/// Law: what `safe_truncate` returns fits in the budget it was given,
/// unless the budget is too small to hold even the `"..."` marker.
pub proof fn law_safe_truncate_fits(text: Seq<char>, max: nat)
    requires
        max == 0 || max >= 3,
    ensures
        utf16_len(safe_truncated(text, max)) <= max,
{
    let normalized = normalize_spaces(text);
    if max > 0 && utf16_len(normalized) > max {
        let cut = sat_sub(max, 3);
        lemma_ellipsis_len();
        if cut > 0 {
            let head = utf16_prefix(normalized, cut);
            lemma_utf16_prefix_fits(normalized, cut);
            let kept = word_boundary_cut(head, cut);
            lemma_last_space_bounds(head);
            if let Some(i) = last_space(head) {
                lemma_utf16_len_prefix(head, i, head.len() as int);
                assert(head.take(head.len() as int) =~= head);
            }
            lemma_utf16_len_append(kept, ellipsis());
        }
    }
}

/// Law: a text that already fits (after whitespace normalisation) comes back
/// normalised but otherwise unchanged.
pub proof fn law_safe_truncate_keeps_fitting_text(text: Seq<char>, max: nat)
    requires
        max > 0,
        utf16_len(normalize_spaces(text)) <= max,
    ensures
        safe_truncated(text, max) == normalize_spaces(text),
{
}

} // verus!

verus! {

// ---------------------------------------------------------------------------
// Unquoting generated titles
// ---------------------------------------------------------------------------
//
// A generated title often comes wrapped in quotes, possibly inside bold
// markers. The shape recognised is, in regular-expression notation,
// `^\s*(\*\*)?["'](.*?)["'](\*\*)?\s*$` where `.` is any character but a
// newline and `.*?` takes the shortest content that lets the rest match.

pub open spec fn is_quote(c: char) -> bool {
    c == '"' || c == '\''
}

/// The first position at or after `i` that does not hold whitespace.
pub open spec fn skip_ws(s: Seq<char>, i: int) -> int
    decreases s.len() - i,
{
    if 0 <= i < s.len() && is_ws(s[i]) {
        skip_ws(s, i + 1)
    } else {
        i
    }
}

/// `**` starts at `i`.
pub open spec fn bold_at(s: Seq<char>, i: int) -> bool {
    0 <= i && i + 2 <= s.len() && s[i] == '*' && s[i + 1] == '*'
}

/// Everything from `j` on is whitespace.
pub open spec fn blank_from(s: Seq<char>, j: int) -> bool {
    forall|k: int| j <= k < s.len() ==> is_ws(#[trigger] s[k])
}

/// A quote at `i` closes the title: only whitespace, or `**` and then only
/// whitespace, follows it.
pub open spec fn closes_at(s: Seq<char>, i: int) -> bool {
    &&& 0 <= i < s.len()
    &&& is_quote(s[i])
    &&& blank_from(s, i + 1) || (bold_at(s, i + 1) && blank_from(s, i + 3))
}

/// The first closing quote at or after `i`, not looking past a newline.
pub open spec fn close_from(s: Seq<char>, i: int) -> Option<int>
    decreases s.len() - i,
{
    if i < 0 || i >= s.len() {
        None
    } else if closes_at(s, i) {
        Some(i)
    } else if s[i] == '\n' {
        None
    } else {
        close_from(s, i + 1)
    }
}

/// The match of the quoted-title shape: whether it opens with `**`, where the
/// content starts and ends, and whether it closes with `**`.
pub open spec fn quote_match(s: Seq<char>) -> Option<(bool, int, int, bool)> {
    let p = skip_ws(s, 0);
    let bold_start = bold_at(s, p);
    let q = if bold_start {
        p + 2
    } else {
        p
    };
    if 0 <= q < s.len() && is_quote(s[q]) {
        match close_from(s, q + 1) {
            Some(e) => Some((bold_start, q + 1, e, bold_at(s, e + 1) && blank_from(s, e + 3))),
            None => None,
        }
    } else {
        None
    }
}

pub open spec fn bold_marker() -> Seq<char> {
    seq!['*', '*']
}

/// `s` without its surrounding quotes; the bold markers stay when both are
/// there.
pub open spec fn unquoted(s: Seq<char>) -> Seq<char> {
    match quote_match(s) {
        Some((bold_start, a, b, bold_end)) => if bold_start && bold_end {
            bold_marker() + s.subrange(a, b) + bold_marker()
        } else {
            s.subrange(a, b)
        },
        None => s,
    }
}

proof fn lemma_skip_ws_bounds(s: Seq<char>, i: int)
    requires
        0 <= i <= s.len(),
    ensures
        i <= skip_ws(s, i) <= s.len(),
        skip_ws(s, i) < s.len() ==> !is_ws(s[skip_ws(s, i)]),
    decreases s.len() - i,
{
    if i < s.len() && is_ws(s[i]) {
        lemma_skip_ws_bounds(s, i + 1);
    }
}

fn skip_ws_exec(s: &[char], i: usize) -> (r: usize)
    requires
        i <= s@.len(),
    ensures
        r == skip_ws(s@, i as int),
        i <= r <= s@.len(),
{
    let mut k = i;
    while k < s.len() && is_whitespace_char(s[k])
        invariant
            i <= k <= s@.len(),
            skip_ws(s@, k as int) == skip_ws(s@, i as int),
        decreases s@.len() - k,
    {
        k = k + 1;
    }
    k
}

fn bold_at_exec(s: &[char], i: usize) -> (b: bool)
    ensures
        b == bold_at(s@, i as int),
{
    i < s.len() && s.len() - i >= 2 && s[i] == '*' && s[i + 1] == '*'
}

fn blank_from_exec(s: &[char], j: usize) -> (b: bool)
    ensures
        b == blank_from(s@, j as int),
{
    let mut k = j;
    while k < s.len()
        invariant
            j <= k,
            forall|m: int| j <= m < k && m < s@.len() ==> is_ws(#[trigger] s@[m]),
        decreases s@.len() - k,
    {
        if !is_whitespace_char(s[k]) {
            return false;
        }
        k = k + 1;
    }
    true
}

fn closes_at_exec(s: &[char], i: usize) -> (b: bool)
    ensures
        b == closes_at(s@, i as int),
{
    if i >= s.len() || !(s[i] == '"' || s[i] == '\'') {
        return false;
    }
    if blank_from_exec(s, i + 1) {
        return true;
    }
    bold_at_exec(s, i + 1) && blank_from_exec(s, i + 3)
}

fn close_from_exec(s: &[char], i: usize) -> (r: Option<usize>)
    ensures
        r matches Some(e) ==> close_from(s@, i as int) == Some(e as int),
        r is None ==> close_from(s@, i as int) is None,
{
    let mut k = i;
    while k < s.len()
        invariant
            i <= k,
            close_from(s@, k as int) == close_from(s@, i as int),
        decreases s@.len() - k,
    {
        if closes_at_exec(s, k) {
            return Some(k);
        }
        if s[k] == '\n' {
            return None;
        }
        k = k + 1;
    }
    None
}

/// The title with its surrounding quotes removed.
pub fn unquote_chars(s: &[char]) -> (r: Vec<char>)
    ensures
        r@ == unquoted(s@),
{
    let p = skip_ws_exec(s, 0);
    let bold_start = bold_at_exec(s, p);
    assert(bold_start ==> p + 2 <= s@.len());
    assert(s@.len() == s.len());
    let q = if bold_start {
        p + 2
    } else {
        p
    };
    if q < s.len() && (s[q] == '"' || s[q] == '\'') {
        match close_from_exec(s, q + 1) {
            Some(e) => {
                proof {
                    lemma_close_from_bounds(s@, q + 1);
                }
                let bold_end = bold_at_exec(s, e + 1) && blank_from_exec(s, e + 3);
                let content = slice_chars(s, q + 1, e);
                if bold_start && bold_end {
                    let mut out: Vec<char> = Vec::new();
                    out.push('*');
                    out.push('*');
                    push_chars(&mut out, content.as_slice());
                    out.push('*');
                    out.push('*');
                    assert(out@ =~= bold_marker() + content@ + bold_marker());
                    out
                } else {
                    content
                }
            },
            None => {
                let mut out: Vec<char> = Vec::new();
                push_chars(&mut out, s);
                out
            },
        }
    } else {
        let mut out: Vec<char> = Vec::new();
        push_chars(&mut out, s);
        out
    }
}

proof fn lemma_close_from_bounds(s: Seq<char>, i: int)
    ensures
        close_from(s, i) matches Some(e) ==> i <= e < s.len() && 0 <= e,
    decreases s.len() - i,
{
    if 0 <= i < s.len() && !closes_at(s, i) && s[i] != '\n' {
        lemma_close_from_bounds(s, i + 1);
    }
}

/// Strips the quotes (and, when both are present, keeps the bold markers)
/// that a generated title tends to come wrapped in, then turns control
/// characters into spaces and collapses whitespace.
pub fn remove_quotes(s: &str) -> (r: String)
    ensures
        r@ == normalize_spaces(unquoted(s@)),
{
    let v = chars_of(s);
    let u = unquote_chars(v.as_slice());
    let n = normalize_spaces_chars(u.as_slice());
    string_of(n.as_slice())
}

} // verus!

verus! {

// ---------------------------------------------------------------------------
// Embeds
// ---------------------------------------------------------------------------

/// The footer under an embed: the configured text, the version and, when a
/// model produced the text, its compact name.
pub open spec fn footer_line(footer_text: Seq<char>, version: Seq<char>, model: Option<Seq<char>>) -> Seq<
    char,
> {
    match model {
        Some(m) => footer_text + " 💎 v"@ + version + " · 🤖 "@ + (if ends_with(m, ":latest"@) {
            m.take(m.len() - ":latest"@.len())
        } else {
            m
        }),
        None => footer_text + " 💎 v"@ + version,
    }
}

pub open spec fn opt_str_view(o: Option<&str>) -> Option<Seq<char>> {
    match o {
        Some(s) => Some(s@),
        None => None,
    }
}

pub fn embed_footer(footer_text: &str, version: &str, model_used: Option<&str>) -> (r: String)
    ensures
        r@ == footer_line(footer_text@, version@, opt_str_view(model_used)),
{
    let mut out: Vec<char> = Vec::new();
    push_str_chars(&mut out, footer_text);
    push_str_chars(&mut out, " 💎 v");
    push_str_chars(&mut out, version);
    match model_used {
        Some(model) => {
            push_str_chars(&mut out, " · 🤖 ");
            push_str_chars(&mut out, compact_model_name(model));
        },
        None => {},
    }
    string_of(out.as_slice())
}

/// The footer of the bot's plain embeds: the configured text and the
/// version.
pub fn versioned_footer(footer_text: &str, version: &str) -> (r: String)
    ensures
        r@ == footer_text@ + " | v"@ + version@,
{
    let mut out: Vec<char> = Vec::new();
    push_str_chars(&mut out, footer_text);
    push_str_chars(&mut out, " | v");
    push_str_chars(&mut out, version);
    string_of(out.as_slice())
}

/// The texts of an embed ready to send.
pub struct EmbedText {
    pub title: String,
    pub description: String,
}

impl EmbedText {
    /// The title has something besides whitespace (only then is it set).
    pub fn has_title(&self) -> (b: bool)
        ensures
            b == !is_blank(self.title@),
    {
        !is_blank_str(self.title.as_str())
    }

    /// The description has something besides whitespace (only then is it
    /// set).
    pub fn has_description(&self) -> (b: bool)
        ensures
            b == !is_blank(self.description@),
    {
        !is_blank_str(self.description.as_str())
    }
}

/// Title and description sanitised and, where over Discord's limits, cut
/// down with `safe_truncate`.
pub open spec fn embed_texts(title: Seq<char>, description: Seq<char>) -> (Seq<char>, Seq<char>) {
    let t = sanitized(title);
    let d = sanitized(description);
    (
        if utf16_len(t) > DISCORD_EMBED_TITLE_LIMIT {
            safe_truncated(t, DISCORD_EMBED_TITLE_LIMIT as nat)
        } else {
            t
        },
        if utf16_len(d) > DISCORD_EMBED_DESCRIPTION_LIMIT {
            safe_truncated(d, DISCORD_EMBED_DESCRIPTION_LIMIT as nat)
        } else {
            d
        },
    )
}

proof fn lemma_sanitized_fits(s: Seq<char>)
    ensures
        utf8_len(sanitized(s)) <= utf8_len(s),
{
    lemma_discord_filter_utf8(s);
    let f = discord_filter(s);
    crate::text::lemma_trim_start_is_suffix(f);
    let k = choose|k: int|
        0 <= k <= f.len() && crate::text::trim_start(f) == f.skip(k) && is_blank(f.take(k)) && (k
            < f.len() ==> !is_ws(f[k]));
    lemma_utf8_len_append(f.take(k), f.skip(k));
    assert(f.take(k) + f.skip(k) =~= f);
    let g = f.skip(k);
    crate::text::lemma_trim_end_is_prefix(g);
    let m = choose|m: int|
        0 <= m <= g.len() && crate::text::trim_end(g) == g.take(m) && is_blank(g.skip(m)) && (m
            > 0 ==> !is_ws(g[m - 1]));
    lemma_utf8_len_append(g.take(m), g.skip(m));
    assert(g.take(m) + g.skip(m) =~= g);
}

proof fn lemma_discord_filter_utf8(s: Seq<char>)
    ensures
        utf8_len(discord_filter(s)) <= utf8_len(s),
    decreases s.len(),
{
    if s.len() > 0 {
        lemma_discord_filter_utf8(s.drop_last());
        assert(s.drop_last().push(s.last()) =~= s);
        s.drop_last().lemma_filter_push(s.last(), |c: char| discord_safe_char(c));
        let f = discord_filter(s.drop_last());
        assert(f.push(s.last()).drop_last() =~= f);
    }
}

/// Sanitises an embed's title and description and cuts each down to
/// Discord's limit when over it.
pub fn sanitize_embed_texts(title: &str, description: &str) -> (r: EmbedText)
    ensures
        (r.title@, r.description@) == embed_texts(title@, description@),
{
    // Both texts are in memory, so the counts below cannot overflow.
    text_fits_in_memory(title);
    text_fits_in_memory(description);
    let tv = chars_of(title);
    let dv = chars_of(description);
    let t = sanitize_chars(tv.as_slice());
    let d = sanitize_chars(dv.as_slice());
    proof {
        lemma_sanitized_fits(title@);
        lemma_sanitized_fits(description@);
    }
    let t2 = if utf16_count(t.as_slice()) > DISCORD_EMBED_TITLE_LIMIT {
        safe_truncate_chars(t.as_slice(), DISCORD_EMBED_TITLE_LIMIT)
    } else {
        t
    };
    let d2 = if utf16_count(d.as_slice()) > DISCORD_EMBED_DESCRIPTION_LIMIT {
        safe_truncate_chars(d.as_slice(), DISCORD_EMBED_DESCRIPTION_LIMIT)
    } else {
        d
    };
    EmbedText { title: string_of(t2.as_slice()), description: string_of(d2.as_slice()) }
}

/// What is sent for an embed, or why nothing can be: both parts blank after
/// sanitising; a part over its limit after truncation; the description is
/// further cut to the bytes the title and footer leave of the total, since
/// the client checks the total in UTF-8 bytes.
pub open spec fn prepared_embed(title: Seq<char>, description: Seq<char>, footer: Seq<char>) -> Result<
    (Seq<char>, Seq<char>),
    Seq<char>,
> {
    if is_blank(sanitized(title)) && is_blank(sanitized(description)) {
        Err("Cannot send embed with no content"@)
    } else {
        let (t, d1) = embed_texts(title, description);
        let budget = sat_sub(
            sat_sub(DISCORD_EMBED_TOTAL_LIMIT as nat, utf8_len(t)),
            utf8_len(footer),
        );
        let d = if utf8_len(d1) > budget {
            utf8_prefix(d1, budget)
        } else {
            d1
        };
        match embed_violation(t, d, footer) {
            Some(e) => Err(e),
            None => Ok((t, d)),
        }
    }
}

/// Sanitises, truncates and validates an embed before it is sent.
pub fn prepare_embed(title: &str, description: &str, footer: &str) -> (r: Result<
    EmbedText,
    String,
>)
    ensures
        match (r, prepared_embed(title@, description@, footer@)) {
            (Ok(e), Ok(v)) => (e.title@, e.description@) == v,
            (Err(e), Err(m)) => e@ == m,
            _ => false,
        },
{
    let st = sanitize_discord_text(title);
    let sd = sanitize_discord_text(description);
    if is_blank_str(st.as_str()) && is_blank_str(sd.as_str()) {
        return Err(String::from_str("Cannot send embed with no content"));
    }
    let texts = sanitize_embed_texts(title, description);
    let title_bytes = byte_len(texts.title.as_str());
    let footer_bytes = byte_len(footer);
    let after_title: usize = if DISCORD_EMBED_TOTAL_LIMIT >= title_bytes {
        DISCORD_EMBED_TOTAL_LIMIT - title_bytes
    } else {
        0
    };
    let byte_budget: usize = if after_title >= footer_bytes {
        after_title - footer_bytes
    } else {
        0
    };
    let description = if byte_len(texts.description.as_str()) > byte_budget {
        truncate_to_byte_budget(texts.description.as_str(), byte_budget)
    } else {
        texts.description
    };
    match validate_embed_content(texts.title.as_str(), description.as_str(), footer) {
        Err(e) => Err(e),
        Ok(()) => Ok(EmbedText { title: texts.title, description }),
    }
}

/// Law: an embed that `prepare_embed` accepts keeps to every limit Discord
/// imposes (in UTF-16 code units), has content, and keeps the client's
/// byte total whenever title and footer leave room for any description.
pub proof fn law_prepared_embed_within_limits(
    title: Seq<char>,
    description: Seq<char>,
    footer: Seq<char>,
)
    ensures
        prepared_embed(title, description, footer) matches Ok((t, d)) ==> {
            &&& utf16_len(t) <= DISCORD_EMBED_TITLE_LIMIT
            &&& utf16_len(d) <= DISCORD_EMBED_DESCRIPTION_LIMIT
            &&& utf16_len(footer) <= DISCORD_EMBED_FOOTER_LIMIT
            &&& utf16_len(t) + utf16_len(d) + utf16_len(footer) <= DISCORD_EMBED_TOTAL_LIMIT
            &&& !(is_blank(t) && is_blank(d))
            &&& utf8_len(t) + utf8_len(footer) <= DISCORD_EMBED_TOTAL_LIMIT ==> utf8_len(t)
                + utf8_len(d) + utf8_len(footer) <= DISCORD_EMBED_TOTAL_LIMIT
        },
{
    let (t, d1) = embed_texts(title, description);
    let budget = sat_sub(sat_sub(DISCORD_EMBED_TOTAL_LIMIT as nat, utf8_len(t)), utf8_len(footer));
    lemma_utf8_prefix_fits(d1, budget);
}

// ---------------------------------------------------------------------------
// Embed times
// ---------------------------------------------------------------------------

/// Whether Discord's timestamp type can hold this many seconds since the
/// Unix epoch: the calendar range of the date-time crate beneath it.
pub uninterp spec fn timestamp_in_range(secs: i64) -> bool;

/// `Timestamp::from_secs`: it succeeds exactly where `timestamp_in_range`
/// holds.
#[verifier::external_body]
fn timestamp_accepted(secs: i64) -> (b: bool)
    ensures
        b == timestamp_in_range(secs),
{
    match twilight_model::util::Timestamp::from_secs(secs) {
        Ok(_) => true,
        Err(_) => false,
    }
}

/// The time an embed is stamped with: the one given, or now when none is
/// given or the given one is out of range.
pub open spec fn embed_time(given: Option<i64>, now: i64) -> i64 {
    let secs = match given {
        Some(t) => t,
        None => now,
    };
    if timestamp_in_range(secs) {
        secs
    } else {
        now
    }
}

/// The seconds since the Unix epoch an embed is stamped with, `now` being
/// the current time.
pub fn create_embed_timestamp(timestamp_secs: Option<i64>, now: i64) -> (r: i64)
    ensures
        r == embed_time(timestamp_secs, now),
{
    let secs = match timestamp_secs {
        Some(t) => t,
        None => now,
    };
    if timestamp_accepted(secs) {
        secs
    } else {
        now
    }
}

// ---------------------------------------------------------------------------
// Laws of the text preparation
// ---------------------------------------------------------------------------

/// A text that already fits in the byte budget is kept whole, and one that
/// fits in the UTF-16 budget likewise.
pub proof fn law_fitting_text_is_kept(text: Seq<char>, max: nat)
    ensures
        utf8_len(text) <= max ==> utf8_prefix(text, max) == text,
        utf16_len(text) <= max ==> utf16_prefix(text, max) == text,
{
}

/// A cut to a budget is a prefix of the text, within the budget.
pub proof fn law_budget_cut_is_a_fitting_prefix(text: Seq<char>, max: nat)
    ensures
        utf8_len(utf8_prefix(text, max)) <= max,
        text.take(utf8_prefix(text, max).len() as int) == utf8_prefix(text, max),
        utf16_len(utf16_prefix(text, max)) <= max,
        text.take(utf16_prefix(text, max).len() as int) == utf16_prefix(text, max),
{
    lemma_utf8_prefix_fits(text, max);
    lemma_utf16_prefix_fits(text, max);
}

/// Sanitised text holds no character Discord renders badly or rejects,
/// and does not begin or end with whitespace.
pub proof fn law_sanitized_is_safe(text: Seq<char>)
    ensures
        forall|i: int|
            0 <= i < sanitized(text).len() ==> discord_safe_char(#[trigger] sanitized(text)[i]),
        sanitized(text).len() > 0 ==> !is_ws(sanitized(text)[0]) && !is_ws(
            sanitized(text).last(),
        ),
{
    let f = discord_filter(text);
    text.filter_lemma(|c: char| discord_safe_char(c));
    crate::text::lemma_trim_start_is_suffix(f);
    let k = choose|k: int|
        0 <= k <= f.len() && crate::text::trim_start(f) == f.skip(k) && is_blank(f.take(k)) && (k
            < f.len() ==> !is_ws(f[k]));
    let g = f.skip(k);
    crate::text::lemma_trim_end_is_prefix(g);
    let m = choose|m: int|
        0 <= m <= g.len() && crate::text::trim_end(g) == g.take(m) && is_blank(g.skip(m)) && (m
            > 0 ==> !is_ws(g[m - 1]));
    let r = sanitized(text);
    assert(r == g.take(m));
    assert forall|i: int| 0 <= i < r.len() implies discord_safe_char(#[trigger] r[i]) by {
        assert(r[i] == f[k + i]);
    }
    if r.len() > 0 {
        assert(r[0] == f[k]);
        assert(r.last() == g[m - 1]);
    }
}

/// Filtering keeps the characters that pass, in order.
proof fn lemma_filter_embeds(s: Seq<char>) -> (idx: Seq<int>)
    ensures
        embeds(discord_filter(s), s, idx),
    decreases s.len(),
{
    let pred = |c: char| discord_safe_char(c);
    if s.len() == 0 {
        s.filter_lemma(pred);
        Seq::<int>::empty()
    } else {
        let init = s.drop_last();
        let idx0 = lemma_filter_embeds(init);
        assert(s =~= init.push(s.last()));
        init.lemma_filter_push(s.last(), pred);
        let f0 = discord_filter(init);
        if discord_safe_char(s.last()) {
            let idx = idx0.push(s.len() - 1);
            assert forall|i: int| 0 <= i < discord_filter(s).len() implies 0 <= #[trigger] idx[i]
                < s.len() && discord_filter(s)[i] == s[idx[i]] by {
                if i < f0.len() {
                    assert(idx[i] == idx0[i]);
                    assert(init[idx0[i]] == s[idx0[i]]);
                }
            }
            idx
        } else {
            assert forall|i: int| 0 <= i < discord_filter(s).len() implies 0 <= #[trigger] idx0[i]
                < s.len() && discord_filter(s)[i] == s[idx0[i]] by {
                assert(init[idx0[i]] == s[idx0[i]]);
            }
            idx0
        }
    }
}

/// Filtering a text whose characters all pass changes nothing.
proof fn lemma_filter_all_safe(s: Seq<char>)
    requires
        forall|i: int| 0 <= i < s.len() ==> discord_safe_char(#[trigger] s[i]),
    ensures
        discord_filter(s) == s,
    decreases s.len(),
{
    let pred = |c: char| discord_safe_char(c);
    if s.len() == 0 {
        s.filter_lemma(pred);
        assert(discord_filter(s) =~= s);
    } else {
        let init = s.drop_last();
        lemma_filter_all_safe(init);
        assert(s =~= init.push(s.last()));
        init.lemma_filter_push(s.last(), pred);
        assert(discord_safe_char(s[s.len() - 1]));
    }
}

/// Law: sanitising what was sanitised changes nothing; what sanitising
/// keeps is the input with some characters left out, trimmed, and made of
/// safe characters only.
pub proof fn law_sanitize_is_idempotent_and_keeps_a_subsequence(text: Seq<char>)
    ensures
        sanitized(sanitized(text)) == sanitized(text),
        is_subsequence(sanitized(text), text),
        trim(sanitized(text)) == sanitized(text),
        forall|i: int|
            0 <= i < sanitized(text).len() ==> discord_safe_char(#[trigger] sanitized(text)[i]),
{
    let r = sanitized(text);
    law_sanitized_is_safe(text);
    lemma_filter_all_safe(r);
    assert(crate::text::trim_start(r) == r);
    assert(crate::text::trim_end(r) == r);
    let f = discord_filter(text);
    let idx = lemma_filter_embeds(text);
    crate::text::lemma_trim_start_is_suffix(f);
    let k = choose|k: int|
        0 <= k <= f.len() && crate::text::trim_start(f) == f.skip(k) && is_blank(f.take(k)) && (k
            < f.len() ==> !is_ws(f[k]));
    let g = f.skip(k);
    crate::text::lemma_trim_end_is_prefix(g);
    let m = choose|m: int|
        0 <= m <= g.len() && crate::text::trim_end(g) == g.take(m) && is_blank(g.skip(m)) && (m
            > 0 ==> !is_ws(g[m - 1]));
    assert(r == g.take(m));
    let sub = idx.subrange(k, k + m);
    assert forall|i: int| 0 <= i < r.len() implies 0 <= #[trigger] sub[i] < text.len() && r[i]
        == text[sub[i]] by {
        assert(sub[i] == idx[k + i]);
        assert(r[i] == f[k + i]);
    }
    assert forall|i: int, j: int| 0 <= i < j < r.len() implies sub[i] < sub[j] by {
        assert(sub[i] == idx[k + i] && sub[j] == idx[k + j]);
    }
    assert(embeds(r, text, sub));
}

/// A title or description of an embed is within Discord's limit for it
/// once prepared.
pub proof fn law_embed_texts_fit(title: Seq<char>, description: Seq<char>)
    ensures
        utf16_len(embed_texts(title, description).0) <= DISCORD_EMBED_TITLE_LIMIT,
        utf16_len(embed_texts(title, description).1) <= DISCORD_EMBED_DESCRIPTION_LIMIT,
{
    law_safe_truncate_fits(sanitized(title), DISCORD_EMBED_TITLE_LIMIT as nat);
    law_safe_truncate_fits(sanitized(description), DISCORD_EMBED_DESCRIPTION_LIMIT as nat);
}

} // verus!
