//! Reading news feeds: finding the encoding a feed declares, decoding its
//! bytes, turning its entries into feed items, gathering the items of all
//! sources, and choosing which items are new.
use vstd::prelude::*;
use vstd::utf8::{decode_utf8, valid_utf8};
use crate::text::{
    chars_of, contains_chars, contains_seq, has_char, occurs_at, occurs_at_exec, push_str_chars,
    slice_chars, string_of,
};
use crate::discord::{sanitize_discord_text, sanitized};
use crate::news::FeedItem;

verus! {

broadcast use vstd::seq_lib::group_seq_properties;

pub struct RssFetcher;

// ---------------------------------------------------------------------------
// Outside decoders
// ---------------------------------------------------------------------------

/// What `encoding_rs::WINDOWS_1251.decode` yields for `bytes` (with its BOM
/// sniffing and replacement of malformed sequences).
pub uninterp spec fn windows_1251_text(bytes: Seq<u8>) -> Seq<char>;

/// `encoding_rs::Encoding::decode` with `WINDOWS_1251`: the decoded text, a
/// function of the bytes alone; only named here. It reserves up to three
/// bytes of output per input byte and panics when that reservation is out
/// of range, which the bound required rules out.
#[verifier::external_body]
fn decode_windows_1251(bytes: &[u8]) -> (r: String)
    requires
        3 * bytes@.len() <= isize::MAX,
    ensures
        r@ == windows_1251_text(bytes@),
{
    encoding_rs::WINDOWS_1251.decode(bytes).0.into_owned()
}

/// `String::from_utf8`: the text when the bytes are valid UTF-8, nothing
/// otherwise.
#[verifier::external_body]
fn utf8_text(bytes: &[u8]) -> (r: Option<String>)
    ensures
        r is Some <==> valid_utf8(bytes@),
        r matches Some(s) ==> s@ == decode_utf8(bytes@),
{
    String::from_utf8(bytes.to_vec()).ok()
}

/// What `String::from_utf8_lossy` yields for `bytes`.
pub uninterp spec fn lossy_text(bytes: Seq<u8>) -> Seq<char>;

/// `String::from_utf8_lossy`: valid UTF-8 decoded, each malformed sequence
/// replaced by U+FFFD; only named here. Each replacement takes three bytes,
/// so the bound required keeps the output's size in range.
#[verifier::external_body]
fn utf8_lossy(bytes: &[u8]) -> (r: String)
    requires
        3 * bytes@.len() <= isize::MAX,
    ensures
        r@ == lossy_text(bytes@),
{
    String::from_utf8_lossy(bytes).into_owned()
}

/// An entry of a parsed feed, holding what the items are made from.
pub struct FeedEntry {
    pub published: Option<i64>,
    pub title: Option<String>,
    pub links: Vec<String>,
    pub content_body: Option<String>,
    pub summary: Option<String>,
}

pub ghost struct FeedEntryView {
    pub published: Option<i64>,
    pub title: Option<Seq<char>>,
    pub links: Seq<Seq<char>>,
    pub content_body: Option<Seq<char>>,
    pub summary: Option<Seq<char>>,
}

pub open spec fn opt_text(o: Option<String>) -> Option<Seq<char>> {
    match o {
        Some(s) => Some(s@),
        None => None,
    }
}

impl View for FeedEntry {
    type V = FeedEntryView;

    open spec fn view(&self) -> FeedEntryView {
        FeedEntryView {
            published: self.published,
            title: opt_text(self.title),
            links: self.links@.map_values(|l: String| l@),
            content_body: opt_text(self.content_body),
            summary: opt_text(self.summary),
        }
    }
}

/// What `feed_rs::parser::parse` makes of the bytes of `text`: the entries
/// it finds, each reduced to its publication time (seconds), title text,
/// link targets, content body and summary text; or, when the text is not a
/// feed, the message of its error.
pub uninterp spec fn parsed_feed(text: Seq<char>) -> Result<Seq<FeedEntryView>, Seq<char>>;

pub open spec fn entry_views(v: Seq<FeedEntry>) -> Seq<FeedEntryView> {
    v.map_values(|e: FeedEntry| e@)
}

// ---------------------------------------------------------------------------
// Feeds the parser reads without failing
// ---------------------------------------------------------------------------
//
// The parser converts the play times of the media and podcast extensions of
// RSS (the `time`, `start` and `end` attributes, the `duration` element)
// with conversions that abort on a digit run they cannot hold: a digit
// other than an ASCII one, or hours too many to count in seconds. Those
// conversions are reached only where the markup names the extension's
// namespace. A feed is handed to the parser unless one such field, as
// written, could hold such a run.

/// The namespace of the media extension of RSS.
pub open spec fn media_rss_namespace() -> Seq<char> {
    "http://search.yahoo.com/mrss/"@
}

/// The namespace of the podcast extension of RSS.
pub open spec fn itunes_namespace() -> Seq<char> {
    "http://www.itunes.com/dtds/podcast-1.0.dtd"@
}

/// A character that may continue an XML name.
pub open spec fn is_name_char(c: char) -> bool {
    ||| 'a' <= c <= 'z'
    ||| 'A' <= c <= 'Z'
    ||| '0' <= c <= '9'
    ||| c == '_'
    ||| c == '.'
    ||| c == '-'
    ||| (c as u32) > 0x7F
}

/// The white space of XML markup.
pub open spec fn is_xml_space(c: char) -> bool {
    c == ' ' || c == '\t' || c == '\n' || c == '\r'
}

/// From `i` on, XML white space and then `=`.
pub open spec fn spaces_then_equals(s: Seq<char>, i: int) -> bool
    decreases s.len() - i,
{
    if i < 0 || i >= s.len() {
        false
    } else if s[i] == '=' {
        true
    } else if is_xml_space(s[i]) {
        spaces_then_equals(s, i + 1)
    } else {
        false
    }
}

/// At `i` stands an attribute named `name`: the name, not the end of a
/// longer name (a prefix before a colon is allowed), then `=`.
pub open spec fn attribute_at(s: Seq<char>, name: Seq<char>, i: int) -> bool {
    &&& occurs_at(s, name, i)
    &&& (i == 0 || !is_name_char(s[i - 1]))
    &&& spaces_then_equals(s, i + name.len())
}

/// At `i` stands the name of a `duration` element, bare or prefixed.
pub open spec fn duration_element_at(s: Seq<char>, i: int) -> bool {
    occurs_at(s, "<duration"@, i) || occurs_at(s, ":duration"@, i)
}

pub open spec fn is_ascii_digit(c: char) -> bool {
    '0' <= c <= '9'
}

/// A character a play time may hold as written: ASCII, and not the start
/// of a character reference.
pub open spec fn plain_time_char(c: char) -> bool {
    (c as u32) < 0x80 && c != '&'
}

/// The number of digits just before `k`, counting no further back than `a`.
pub open spec fn digits_before(s: Seq<char>, a: int, k: int) -> nat
    decreases k - a,
{
    if k <= a || !is_ascii_digit(s[k - 1]) {
        0
    } else {
        digits_before(s, a, k - 1) + 1
    }
}

/// `s[a..b]` is a play time the parser converts without failing: ASCII
/// without references, and no run of more than fifteen digits.
pub open spec fn plain_play_time(s: Seq<char>, a: int, b: int) -> bool {
    &&& forall|k: int| a <= k < b ==> plain_time_char(#[trigger] s[k])
    &&& forall|k: int| a < k <= b ==> #[trigger] digits_before(s, a, k) <= 15
}

/// The first `ch` at or after `j`.
pub open spec fn char_from(s: Seq<char>, j: int, ch: char) -> Option<int>
    decreases s.len() - j,
{
    if j < 0 || j >= s.len() {
        None
    } else if s[j] == ch {
        Some(j)
    } else {
        char_from(s, j + 1, ch)
    }
}

/// The first position at or after `j` that does not hold XML white space.
pub open spec fn skip_xml_spaces(s: Seq<char>, j: int) -> int
    decreases s.len() - j,
{
    if 0 <= j < s.len() && is_xml_space(s[j]) {
        skip_xml_spaces(s, j + 1)
    } else {
        j
    }
}

/// The attribute whose name ends at `j` has a quoted value that is a plain
/// play time.
pub open spec fn plain_attribute_value(s: Seq<char>, j: int) -> bool {
    let q = skip_xml_spaces(s, skip_xml_spaces(s, j) + 1);
    &&& 0 <= q < s.len()
    &&& is_quote_char(s[q])
    &&& match char_from(s, q + 1, s[q]) {
        Some(c) => plain_play_time(s, q + 1, c),
        None => false,
    }
}

/// At `i` stands a play-time attribute whose value may not be plain.
pub open spec fn unplain_timing_attribute_at(s: Seq<char>, i: int) -> bool {
    ||| attribute_at(s, "time"@, i) && !plain_attribute_value(s, i + 4)
    ||| attribute_at(s, "start"@, i) && !plain_attribute_value(s, i + 5)
    ||| attribute_at(s, "end"@, i) && !plain_attribute_value(s, i + 3)
}

/// No quote character in `s[a..b]`.
pub open spec fn quote_free(s: Seq<char>, a: int, b: int) -> bool {
    forall|k: int| a <= k < b ==> !is_quote_char(#[trigger] s[k])
}

/// The `duration` element whose name stands at `i` holds a plain play time:
/// its start tag has no quoted attribute, and the text after it, up to the
/// next tag, is a plain play time and is not continued past a comment, a
/// character-data section or a processing instruction. Without a `>` after
/// the name there is no such element.
pub open spec fn plain_duration_element(s: Seq<char>, i: int) -> bool {
    match char_from(s, i + 9, '>') {
        None => true,
        Some(g) => {
            &&& quote_free(s, i + 9, g)
            &&& match char_from(s, g + 1, '<') {
                None => plain_play_time(s, g + 1, s.len() as int),
                Some(t) => plain_play_time(s, g + 1, t) && !(t + 1 < s.len() && (s[t + 1] == '!'
                    || s[t + 1] == '?')),
            }
        },
    }
}

/// At `i` stands a `duration` element that may not hold a plain play time.
pub open spec fn unplain_duration_element_at(s: Seq<char>, i: int) -> bool {
    duration_element_at(s, i) && !plain_duration_element(s, i)
}

/// The markup begins as a UTF-16 document does when read byte by byte.
pub open spec fn utf16_markup_start(s: Seq<char>) -> bool {
    ||| s.len() >= 4 && s[0] == '<' && s[1] == '\0' && s[2] == '?' && s[3] == '\0'
    ||| s.len() >= 4 && s[0] == '\0' && s[1] == '<' && s[2] == '\0' && s[3] == '?'
}

/// The parser could read the markup in a way the text does not show: as
/// UTF-16, which takes NUL characters to spell names, or as ISO-2022-JP,
/// which takes escape characters to switch character sets.
pub open spec fn decoding_hazard(s: Seq<char>) -> bool {
    ||| s.contains('\0') && (contains_seq(s, "encoding"@) || utf16_markup_start(s))
    ||| s.contains('\u{1b}') && contains_seq(s, "2022"@)
}

/// Feeds the parser is handed: those it reads as written, in which every
/// play-time field of a declared media or podcast extension is plain.
pub open spec fn feed_parse_safe(s: Seq<char>) -> bool {
    &&& !decoding_hazard(s)
    &&& contains_seq(s, media_rss_namespace()) ==> forall|i: int|
        !#[trigger] unplain_timing_attribute_at(s, i)
    &&& contains_seq(s, itunes_namespace()) ==> forall|i: int|
        !#[trigger] unplain_duration_element_at(s, i)
}

fn is_name_char_exec(c: char) -> (b: bool)
    ensures
        b == is_name_char(c),
{
    ('a' <= c && c <= 'z') || ('A' <= c && c <= 'Z') || ('0' <= c && c <= '9') || c == '_' || c
        == '.' || c == '-' || (c as u32) > 0x7F
}

fn is_xml_space_exec(c: char) -> (b: bool)
    ensures
        b == is_xml_space(c),
{
    c == ' ' || c == '\t' || c == '\n' || c == '\r'
}

fn spaces_then_equals_exec(s: &[char], i: usize) -> (b: bool)
    ensures
        b == spaces_then_equals(s@, i as int),
{
    let mut j: usize = i;
    while j < s.len() && is_xml_space_exec(s[j])
        invariant
            i <= j,
            spaces_then_equals(s@, j as int) == spaces_then_equals(s@, i as int),
        decreases s@.len() - j,
    {
        j = j + 1;
    }
    j < s.len() && s[j] == '='
}

fn attribute_at_exec(s: &[char], name: &[char], i: usize) -> (b: bool)
    ensures
        b == attribute_at(s@, name@, i as int),
{
    if !occurs_at_exec(s, name, i) {
        return false;
    }
    if i > 0 && is_name_char_exec(s[i - 1]) {
        return false;
    }
    spaces_then_equals_exec(s, i + name.len())
}

fn skip_xml_spaces_exec(s: &[char], j: usize) -> (k: usize)
    requires
        j <= s@.len(),
    ensures
        k as int == skip_xml_spaces(s@, j as int),
        j <= k <= s@.len(),
{
    let mut k: usize = j;
    while k < s.len() && is_xml_space_exec(s[k])
        invariant
            j <= k <= s@.len(),
            skip_xml_spaces(s@, k as int) == skip_xml_spaces(s@, j as int),
        decreases s@.len() - k,
    {
        k = k + 1;
    }
    k
}

fn char_from_exec(s: &[char], j: usize, ch: char) -> (r: Option<usize>)
    ensures
        match r {
            Some(k) => char_from(s@, j as int, ch) == Some(k as int) && j <= k < s@.len()
                && s@[k as int] == ch,
            None => char_from(s@, j as int, ch) is None,
        },
{
    let mut k: usize = j;
    while k < s.len()
        invariant
            j <= k,
            char_from(s@, k as int, ch) == char_from(s@, j as int, ch),
        decreases s@.len() - k,
    {
        if s[k] == ch {
            return Some(k);
        }
        k = k + 1;
    }
    None
}

fn plain_play_time_exec(s: &[char], a: usize, b: usize) -> (r: bool)
    requires
        a <= b <= s@.len(),
    ensures
        r == plain_play_time(s@, a as int, b as int),
{
    let mut k: usize = a;
    let mut run: usize = 0;
    while k < b
        invariant
            a <= k <= b <= s@.len(),
            run as nat == digits_before(s@, a as int, k as int),
            forall|j: int| a <= j < k ==> plain_time_char(#[trigger] s@[j]),
            forall|j: int| a < j <= k ==> #[trigger] digits_before(s@, a as int, j) <= 15,
        decreases b - k,
    {
        let c = s[k];
        if !((c as u32) < 0x80 && c != '&') {
            assert(!plain_time_char(s@[k as int]));
            return false;
        }
        if '0' <= c && c <= '9' {
            if run == 15 {
                assert(digits_before(s@, a as int, k + 1) == 16);
                return false;
            }
            run = run + 1;
        } else {
            run = 0;
        }
        k = k + 1;
    }
    true
}

fn plain_attribute_value_exec(s: &[char], j: usize) -> (b: bool)
    requires
        j <= s@.len(),
    ensures
        b == plain_attribute_value(s@, j as int),
{
    let eq = skip_xml_spaces_exec(s, j);
    if eq >= s.len() {
        return false;
    }
    let q = skip_xml_spaces_exec(s, eq + 1);
    if q >= s.len() || !(s[q] == '"' || s[q] == '\'') {
        return false;
    }
    match char_from_exec(s, q + 1, s[q]) {
        Some(c) => plain_play_time_exec(s, q + 1, c),
        None => false,
    }
}

fn quote_free_exec(s: &[char], a: usize, b: usize) -> (r: bool)
    requires
        a <= b <= s@.len(),
    ensures
        r == quote_free(s@, a as int, b as int),
{
    let mut k: usize = a;
    while k < b
        invariant
            a <= k <= b <= s@.len(),
            forall|j: int| a <= j < k ==> !is_quote_char(#[trigger] s@[j]),
        decreases b - k,
    {
        if s[k] == '"' || s[k] == '\'' {
            assert(is_quote_char(s@[k as int]));
            return false;
        }
        k = k + 1;
    }
    true
}

fn plain_duration_element_exec(s: &[char], i: usize) -> (b: bool)
    requires
        i + 9 <= s@.len(),
    ensures
        b == plain_duration_element(s@, i as int),
{
    let len = s.len();
    match char_from_exec(s, i + 9, '>') {
        None => true,
        Some(g) => {
            if !quote_free_exec(s, i + 9, g) {
                return false;
            }
            match char_from_exec(s, g + 1, '<') {
                None => plain_play_time_exec(s, g + 1, len),
                Some(t) => plain_play_time_exec(s, g + 1, t) && !(t + 1 < len && (s[t + 1]
                    == '!' || s[t + 1] == '?')),
            }
        },
    }
}

/// Whether a play-time attribute that may not be plain stands in `s`.
fn has_unplain_timing_attribute(s: &[char]) -> (b: bool)
    ensures
        b == exists|i: int| #[trigger] unplain_timing_attribute_at(s@, i),
{
    let time = chars_of("time");
    let start = chars_of("start");
    let end = chars_of("end");
    proof {
        reveal_strlit("time");
        reveal_strlit("start");
        reveal_strlit("end");
    }
    let mut i: usize = 0;
    while i < s.len()
        invariant
            i <= s@.len(),
            time@ == "time"@,
            start@ == "start"@,
            end@ == "end"@,
            time@.len() == 4,
            start@.len() == 5,
            end@.len() == 3,
            forall|k: int| 0 <= k < i ==> !#[trigger] unplain_timing_attribute_at(s@, k),
        decreases s@.len() - i,
    {
        if attribute_at_exec(s, time.as_slice(), i) && !plain_attribute_value_exec(s, i + 4) {
            assert(unplain_timing_attribute_at(s@, i as int));
            return true;
        }
        if attribute_at_exec(s, start.as_slice(), i) && !plain_attribute_value_exec(s, i + 5) {
            assert(unplain_timing_attribute_at(s@, i as int));
            return true;
        }
        if attribute_at_exec(s, end.as_slice(), i) && !plain_attribute_value_exec(s, i + 3) {
            assert(unplain_timing_attribute_at(s@, i as int));
            return true;
        }
        i = i + 1;
    }
    assert forall|k: int| !#[trigger] unplain_timing_attribute_at(s@, k) by {
        if 0 <= k < s@.len() {
        }
    }
    false
}

/// Whether a `duration` element that may not be plain stands in `s`.
fn has_unplain_duration_element(s: &[char]) -> (b: bool)
    ensures
        b == exists|i: int| #[trigger] unplain_duration_element_at(s@, i),
{
    let bare = chars_of("<duration");
    let prefixed = chars_of(":duration");
    proof {
        reveal_strlit("<duration");
        reveal_strlit(":duration");
    }
    let mut i: usize = 0;
    while i < s.len()
        invariant
            i <= s@.len(),
            bare@ == "<duration"@,
            prefixed@ == ":duration"@,
            bare@.len() == 9,
            prefixed@.len() == 9,
            forall|k: int| 0 <= k < i ==> !#[trigger] unplain_duration_element_at(s@, k),
        decreases s@.len() - i,
    {
        if occurs_at_exec(s, bare.as_slice(), i) || occurs_at_exec(s, prefixed.as_slice(), i) {
            if !plain_duration_element_exec(s, i) {
                assert(unplain_duration_element_at(s@, i as int));
                return true;
            }
        }
        i = i + 1;
    }
    assert forall|k: int| !#[trigger] unplain_duration_element_at(s@, k) by {
        if 0 <= k < s@.len() {
        }
    }
    false
}

fn decoding_hazard_exec(s: &[char]) -> (b: bool)
    ensures
        b == decoding_hazard(s@),
{
    let encoding = chars_of("encoding");
    let jis = chars_of("2022");
    let utf16_start = s.len() >= 4 && ((s[0] == '<' && s[1] == '\0' && s[2] == '?' && s[3]
        == '\0') || (s[0] == '\0' && s[1] == '<' && s[2] == '\0' && s[3] == '?'));
    (has_char(s, '\0') && (contains_chars(s, encoding.as_slice()) || utf16_start)) || (has_char(
        s,
        '\u{1b}',
    ) && contains_chars(s, jis.as_slice()))
}

impl RssFetcher {
    /// Whether `content` may be handed to the feed parser: see
    /// `feed_parse_safe`.
    pub fn parse_safe(content: &str) -> (b: bool)
        ensures
            b == feed_parse_safe(content@),
    {
        let s = chars_of(content);
        let mrss = chars_of("http://search.yahoo.com/mrss/");
        let itunes = chars_of("http://www.itunes.com/dtds/podcast-1.0.dtd");
        if decoding_hazard_exec(s.as_slice()) {
            return false;
        }
        if contains_chars(s.as_slice(), mrss.as_slice()) && has_unplain_timing_attribute(
            s.as_slice(),
        ) {
            return false;
        }
        if contains_chars(s.as_slice(), itunes.as_slice()) && has_unplain_duration_element(
            s.as_slice(),
        ) {
            return false;
        }
        true
    }
}

/// `feed_rs::parser::parse` on the bytes of `content`: the reduced entries
/// or the error message, as `parsed_feed` of the text says (a function of
/// the text alone). The parser's entry ids, drawn at random where a feed
/// gives none, are not carried over. It is only handed text for which
/// `feed_parse_safe` holds. The parser panics only when converting a play
/// time of the media or podcast extension (reached where the markup names
/// that namespace) whose digit run is not ASCII or too long for a `u64`,
/// or whose hours overflow a `u64` when counted in seconds; markup it reads
/// as written, with such fields plain, cannot hold such a run.
#[verifier::external_body]
fn parse_feed(content: &str) -> (r: Result<Vec<FeedEntry>, String>)
    requires
        feed_parse_safe(content@),
    ensures
        match r {
            Ok(v) => parsed_feed(content@) == Ok::<Seq<FeedEntryView>, Seq<char>>(entry_views(v@)),
            Err(m) => parsed_feed(content@) == Err::<Seq<FeedEntryView>, Seq<char>>(m@),
        },
{
    match feed_rs::parser::parse(content.as_bytes()) {
        Ok(feed) => Ok(feed.entries.into_iter().map(|e| FeedEntry {
            published: e.published.map(|d| d.timestamp()),
            title: e.title.map(|t| t.content),
            links: e.links.into_iter().map(|l| l.href).collect(),
            content_body: e.content.and_then(|c| c.body),
            summary: e.summary.map(|s| s.content),
        }).collect()),
        Err(e) => Err(e.to_string()),
    }
}

// ---------------------------------------------------------------------------
// Encoding
// ---------------------------------------------------------------------------

/// The first occurrence of `n` at or after `i`.
pub open spec fn occurrence_from(h: Seq<char>, n: Seq<char>, i: int) -> Option<int>
    decreases h.len() + 1 - i,
{
    if i < 0 || i + n.len() > h.len() {
        None
    } else if occurs_at(h, n, i) {
        Some(i)
    } else {
        occurrence_from(h, n, i + 1)
    }
}

pub open spec fn is_quote_char(c: char) -> bool {
    c == '"' || c == '\''
}

/// `s` from `i` on, without its leading quote characters, up to the next
/// quote character.
pub open spec fn unquoted_value(s: Seq<char>, i: int) -> Seq<char>
    decreases s.len() - i,
{
    if i < 0 || i >= s.len() {
        Seq::<char>::empty()
    } else if is_quote_char(s[i]) {
        unquoted_value(s, i + 1)
    } else {
        value_until_quote(s, i)
    }
}

pub open spec fn value_until_quote(s: Seq<char>, i: int) -> Seq<char>
    decreases s.len() - i,
{
    if i < 0 || i >= s.len() || is_quote_char(s[i]) {
        Seq::<char>::empty()
    } else {
        seq![s[i]] + value_until_quote(s, i + 1)
    }
}

pub open spec fn ascii_lower(c: char) -> char {
    if 'A' <= c && c <= 'Z' {
        ((c as u32) + 32) as char
    } else {
        c
    }
}

pub open spec fn xml_declaration_start() -> Seq<u8> {
    seq![0x3Cu8, 0x3Fu8, 0x78u8, 0x6Du8, 0x6Cu8]
}

pub open spec fn min_nat(a: nat, b: nat) -> nat {
    if a < b {
        a
    } else {
        b
    }
}

/// The encoding an XML declaration names: the value after the first
/// `encoding=` (up to a second one, if any), stripped of leading quotes, cut
/// at the next quote and lower-cased.
pub open spec fn header_encoding(header: Seq<char>) -> Option<Seq<char>> {
    match occurrence_from(header, "encoding="@, 0) {
        Some(a) => {
            let start = a + "encoding="@.len();
            let end = match occurrence_from(header, "encoding="@, start) {
                Some(b) => b,
                None => header.len() as int,
            };
            Some(unquoted_value(header.subrange(start, end), 0).map_values(|c: char| ascii_lower(c)))
        },
        None => None,
    }
}

/// The encoding a feed declares: when it starts with `<?xml`, the one its
/// first 200 bytes (read as UTF-8, lossily) name.
pub open spec fn declared_encoding_of(bytes: Seq<u8>) -> Option<Seq<char>> {
    if bytes.len() >= 5 && bytes.take(5) == xml_declaration_start() {
        header_encoding(lossy_text(bytes.take(min_nat(bytes.len(), 200) as int)))
    } else {
        None
    }
}

pub open spec fn is_windows_1251_name(e: Seq<char>) -> bool {
    e == "windows-1251"@ || e == "cp1251"@ || e == "iso-8859-1"@ || e == "latin-1"@
}

/// The text of a feed: decoded as Windows-1251 when it declares that
/// encoding (or Latin-1, which is read the same way), else as UTF-8, falling
/// back to Windows-1251 when the bytes are not valid UTF-8.
pub open spec fn feed_text(bytes: Seq<u8>) -> Seq<char> {
    match declared_encoding_of(bytes) {
        Some(e) => if is_windows_1251_name(e) {
            windows_1251_text(bytes)
        } else if valid_utf8(bytes) {
            decode_utf8(bytes)
        } else {
            windows_1251_text(bytes)
        },
        None => if valid_utf8(bytes) {
            decode_utf8(bytes)
        } else {
            windows_1251_text(bytes)
        },
    }
}

fn occurrence_from_exec(h: &[char], n: &[char], i: usize) -> (r: Option<usize>)
    ensures
        r matches Some(k) ==> occurrence_from(h@, n@, i as int) == Some(k as int),
        r is None ==> occurrence_from(h@, n@, i as int) is None,
{
    let mut k = i;
    while k <= h.len() && n.len() <= h.len() - k
        invariant
            i <= k,
            occurrence_from(h@, n@, k as int) == occurrence_from(h@, n@, i as int),
        decreases h@.len() + 1 - k,
    {
        if occurs_at_exec(h, n, k) {
            return Some(k);
        }
        assert(n@.len() > 0) by {
            if n@.len() == 0 {
                assert(h@.subrange(k as int, k as int) =~= n@);
            }
        }
        k = k + 1;
    }
    None
}

fn unquoted_value_exec(s: &[char]) -> (r: Vec<char>)
    ensures
        r@ == unquoted_value(s@, 0),
{
    let mut i: usize = 0;
    while i < s.len() && (s[i] == '"' || s[i] == '\'')
        invariant
            i <= s@.len(),
            unquoted_value(s@, i as int) == unquoted_value(s@, 0),
        decreases s@.len() - i,
    {
        i = i + 1;
    }
    let start = i;
    while i < s.len() && !(s[i] == '"' || s[i] == '\'')
        invariant
            start <= i <= s@.len(),
            value_until_quote(s@, start as int) == s@.subrange(start as int, i as int)
                + value_until_quote(s@, i as int),
        decreases s@.len() - i,
    {
        assert(s@.subrange(start as int, i + 1) =~= s@.subrange(start as int, i as int)
            + seq![s@[i as int]]);
        i = i + 1;
    }
    assert(s@.subrange(start as int, i as int) + value_until_quote(s@, i as int)
        =~= s@.subrange(start as int, i as int));
    slice_chars(s, start, i)
}

fn lower_ascii_chars(s: &[char]) -> (r: Vec<char>)
    ensures
        r@ == s@.map_values(|c: char| ascii_lower(c)),
{
    let mut r: Vec<char> = Vec::new();
    let mut i: usize = 0;
    while i < s.len()
        invariant
            i <= s@.len(),
            r@ == s@.take(i as int).map_values(|c: char| ascii_lower(c)),
        decreases s@.len() - i,
    {
        let c = s[i];
        let l = if 'A' <= c && c <= 'Z' {
            ((c as u32) + 32) as u8 as char
        } else {
            c
        };
        r.push(l);
        i = i + 1;
        assert(r@ =~= s@.take(i as int).map_values(|c: char| ascii_lower(c)));
    }
    assert(s@.take(i as int) =~= s@);
    r
}

impl RssFetcher {
    /// The encoding named in a feed's XML declaration, lower-cased.
    pub fn declared_encoding(bytes: &[u8]) -> (r: Option<String>)
        ensures
            match (r, declared_encoding_of(bytes@)) {
                (Some(e), Some(d)) => e@ == d,
                (None, None) => true,
                _ => false,
            },
    {
        if bytes.len() < 5 || !(bytes[0] == 0x3C && bytes[1] == 0x3F && bytes[2] == 0x78
            && bytes[3] == 0x6D && bytes[4] == 0x6C) {
            proof {
                if bytes@.len() >= 5 {
                    assert(bytes@.take(5)[0] == bytes@[0]);
                    assert(bytes@.take(5)[1] == bytes@[1]);
                    assert(bytes@.take(5)[2] == bytes@[2]);
                    assert(bytes@.take(5)[3] == bytes@[3]);
                    assert(bytes@.take(5)[4] == bytes@[4]);
                }
            }
            return None;
        }
        assert(bytes@.take(5) =~= xml_declaration_start());
        let head_len = if bytes.len() < 200 {
            bytes.len()
        } else {
            200
        };
        let head = slice_bytes(bytes, head_len);
        let header = utf8_lossy(head.as_slice());
        Self::encoding_in_header(header.as_str())
    }

    /// The encoding an XML declaration names, lower-cased.
    pub fn encoding_in_header(header: &str) -> (r: Option<String>)
        ensures
            match (r, header_encoding(header@)) {
                (Some(e), Some(d)) => e@ == d,
                (None, None) => true,
                _ => false,
            },
    {
        let h = chars_of(header);
        let key = chars_of("encoding=");
        match occurrence_from_exec(h.as_slice(), key.as_slice(), 0) {
            Some(a) => {
                proof {
                    lemma_occurrence_from(h@, key@, 0);
                }
                assert(a + key@.len() <= h@.len());
                assert(h@.len() == h.len());
                assert(key@.len() == key.len());
                let start = a + key.len();
                let end = match occurrence_from_exec(h.as_slice(), key.as_slice(), start) {
                    Some(b) => {
                        proof {
                            lemma_occurrence_from(h@, key@, start as int);
                        }
                        b
                    },
                    None => h.len(),
                };
                let piece = slice_chars(h.as_slice(), start, end);
                let value = unquoted_value_exec(piece.as_slice());
                let lower = lower_ascii_chars(value.as_slice());
                Some(string_of(lower.as_slice()))
            },
            None => None,
        }
    }

    /// Decodes a feed's bytes by the encoding it declares, or as UTF-8 with a
    /// Windows-1251 fallback.
    pub fn decode_feed(bytes: &[u8]) -> (r: String)
        requires
            3 * bytes@.len() <= isize::MAX,
        ensures
            r@ == feed_text(bytes@),
    {
        let declared = Self::declared_encoding(bytes);
        let single_byte = match &declared {
            Some(e) => Self::reads_as_windows_1251(e.as_str()),
            None => false,
        };
        if single_byte {
            return decode_windows_1251(bytes);
        }
        match utf8_text(bytes) {
            Some(s) => s,
            None => decode_windows_1251(bytes),
        }
    }
}

fn slice_bytes(bytes: &[u8], n: usize) -> (r: Vec<u8>)
    requires
        n <= bytes@.len(),
    ensures
        r@ == bytes@.take(n as int),
{
    let mut r: Vec<u8> = Vec::new();
    let mut i: usize = 0;
    while i < n
        invariant
            i <= n <= bytes@.len(),
            r@ == bytes@.take(i as int),
        decreases n - i,
    {
        r.push(bytes[i]);
        i = i + 1;
        assert(r@ =~= bytes@.take(i as int));
    }
    r
}

impl RssFetcher {
    /// Whether a feed declaring this encoding is read as Windows-1251 (as
    /// are feeds declaring Latin-1).
    pub fn reads_as_windows_1251(encoding: &str) -> (b: bool)
        ensures
            b == is_windows_1251_name(encoding@),
    {
        let s = String::from_str(encoding);
        s == String::from_str("windows-1251") || s == String::from_str("cp1251") || s
            == String::from_str("iso-8859-1") || s == String::from_str("latin-1")
    }
}

proof fn lemma_occurrence_from(h: Seq<char>, n: Seq<char>, i: int)
    ensures
        occurrence_from(h, n, i) matches Some(k) ==> i <= k && k + n.len() <= h.len() && 0
            <= k,
    decreases h.len() + 1 - i,
{
    if !(i < 0 || i + n.len() > h.len()) && !occurs_at(h, n, i) {
        lemma_occurrence_from(h, n, i + 1);
    }
}

} // verus!

verus! {

// ---------------------------------------------------------------------------
// Items from entries
// ---------------------------------------------------------------------------

/// The parts of a feed item: title, link, description, publication time.
pub open spec fn item_parts(i: FeedItem) -> (Seq<char>, Seq<char>, Seq<char>, u64) {
    (i.title@, i.link@, i.description@, i.published_timestamp)
}

pub open spec fn entry_title(e: FeedEntryView) -> Seq<char> {
    match e.title {
        Some(t) => sanitized(t),
        None => "No title"@,
    }
}

/// An entry of an ordinary feed as an item: its first link; its content, or
/// else its summary, as the description; no publication time counts as 0.
pub open spec fn standard_item(e: FeedEntryView) -> (Seq<char>, Seq<char>, Seq<char>, u64) {
    (
        entry_title(e),
        if e.links.len() > 0 {
            e.links[0]
        } else {
            "No link"@
        },
        match e.content_body {
            Some(b) => sanitized(b),
            None => match e.summary {
                Some(s) => sanitized(s),
                None => "No description"@,
            },
        },
        match e.published {
            Some(t) => t as u64,
            None => 0,
        },
    )
}

/// The first non-empty link.
pub open spec fn first_nonempty(links: Seq<Seq<char>>) -> Option<Seq<char>>
    decreases links.len(),
{
    if links.len() == 0 {
        None
    } else if links[0].len() > 0 {
        Some(links[0])
    } else {
        first_nonempty(links.drop_first())
    }
}

/// An entry of a search-engine news feed as an item: its first non-empty
/// link; its summary, or else its content, as the description; no
/// publication time counts as `now`.
pub open spec fn bing_item(e: FeedEntryView, now: u64) -> (Seq<char>, Seq<char>, Seq<char>, u64) {
    (
        entry_title(e),
        match first_nonempty(e.links) {
            Some(l) => l,
            None => "No link"@,
        },
        match e.summary {
            Some(s) => sanitized(s),
            None => match e.content_body {
                Some(b) => sanitized(b),
                None => "No description"@,
            },
        },
        match e.published {
            Some(t) => t as u64,
            None => now,
        },
    )
}

fn entry_title_exec(e: &FeedEntry) -> (r: String)
    ensures
        r@ == entry_title(e@),
{
    match &e.title {
        Some(t) => sanitize_discord_text(t.as_str()),
        None => String::from_str("No title"),
    }
}

fn standard_item_exec(e: &FeedEntry) -> (r: FeedItem)
    ensures
        item_parts(r) == standard_item(e@),
{
    let title = entry_title_exec(e);
    let link = if e.links.len() > 0 {
        e.links[0].clone()
    } else {
        String::from_str("No link")
    };
    let description = match &e.content_body {
        Some(b) => sanitize_discord_text(b.as_str()),
        None => match &e.summary {
            Some(s) => sanitize_discord_text(s.as_str()),
            None => String::from_str("No description"),
        },
    };
    let published_timestamp = match e.published {
        Some(t) => t as u64,
        None => 0,
    };
    FeedItem { title, link, description, published_timestamp }
}

fn first_nonempty_exec(links: &Vec<String>) -> (r: Option<String>)
    ensures
        opt_text(r) == first_nonempty(links@.map_values(|l: String| l@)),
{
    let ghost ls = links@.map_values(|l: String| l@);
    let mut k: usize = 0;
    while k < links.len()
        invariant
            k <= links@.len(),
            ls == links@.map_values(|l: String| l@),
            first_nonempty(ls.skip(k as int)) == first_nonempty(ls),
        decreases links@.len() - k,
    {
        assert(ls.skip(k as int).drop_first() =~= ls.skip(k + 1));
        assert(ls.skip(k as int)[0] == links@[k as int]@);
        if links[k].as_str().unicode_len() > 0 {
            return Some(links[k].clone());
        }
        k = k + 1;
    }
    assert(ls.skip(k as int) =~= Seq::<Seq<char>>::empty());
    None
}

fn bing_item_exec(e: &FeedEntry, now: u64) -> (r: FeedItem)
    ensures
        item_parts(r) == bing_item(e@, now),
{
    let title = entry_title_exec(e);
    let link = match first_nonempty_exec(&e.links) {
        Some(l) => l,
        None => String::from_str("No link"),
    };
    let description = match &e.summary {
        Some(s) => sanitize_discord_text(s.as_str()),
        None => match &e.content_body {
            Some(b) => sanitize_discord_text(b.as_str()),
            None => String::from_str("No description"),
        },
    };
    let published_timestamp = match e.published {
        Some(t) => t as u64,
        None => now,
    };
    FeedItem { title, link, description, published_timestamp }
}

fn message_after(prefix: &str, detail: &str) -> (r: String)
    ensures
        r@ == prefix@ + detail@,
{
    let mut out: Vec<char> = Vec::new();
    push_str_chars(&mut out, prefix);
    push_str_chars(&mut out, detail);
    string_of(out.as_slice())
}

impl RssFetcher {
    /// The items of an ordinary feed's entries, one per entry.
    pub fn standard_entry_items(entries: &[FeedEntry]) -> (r: Vec<FeedItem>)
        ensures
            r@.len() == entries@.len(),
            forall|k: int|
                0 <= k < r@.len() ==> item_parts(#[trigger] r@[k]) == standard_item(entries@[k]@),
    {
        let mut items: Vec<FeedItem> = Vec::new();
        let mut k: usize = 0;
        while k < entries.len()
            invariant
                k <= entries@.len(),
                items@.len() == k,
                forall|j: int|
                    0 <= j < k ==> item_parts(#[trigger] items@[j]) == standard_item(entries@[j]@),
            decreases entries@.len() - k,
        {
            items.push(standard_item_exec(&entries[k]));
            k = k + 1;
        }
        items
    }

    /// The items of a search-engine news feed's entries, one per entry for
    /// its first ten entries.
    pub fn bing_entry_items(entries: &[FeedEntry], now: u64) -> (r: Vec<FeedItem>)
        ensures
            r@.len() == if entries@.len() < 10 {
                entries@.len()
            } else {
                10
            },
            forall|k: int|
                0 <= k < r@.len() ==> item_parts(#[trigger] r@[k]) == bing_item(entries@[k]@, now),
    {
        let mut items: Vec<FeedItem> = Vec::new();
        let mut k: usize = 0;
        while k < entries.len() && k < 10
            invariant
                k <= entries@.len(),
                k <= 10,
                items@.len() == k,
                forall|j: int|
                    0 <= j < k ==> item_parts(#[trigger] items@[j]) == bing_item(entries@[j]@, now),
            decreases entries@.len() - k,
        {
            items.push(bing_item_exec(&entries[k], now));
            k = k + 1;
        }
        items
    }

    /// The items of an ordinary feed, one per entry; or why it could not be
    /// parsed. A feed holding a play-time field the parser may fail to
    /// convert (see `feed_parse_safe`) is refused unread.
    pub fn standard_items(content: &str) -> (r: Result<Vec<FeedItem>, String>)
        ensures
            !feed_parse_safe(content@) ==> (r matches Err(e) && e@ == "Failed to parse standard feed: "@
                + unsupported_feed_message()),
            feed_parse_safe(content@) ==> match (r, parsed_feed(content@)) {
                (Ok(items), Ok(es)) => items@.len() == es.len() && forall|k: int|
                    0 <= k < items@.len() ==> item_parts(#[trigger] items@[k]) == standard_item(
                        es[k],
                    ),
                (Err(e), Err(m)) => e@ == "Failed to parse standard feed: "@ + m,
                _ => false,
            },
    {
        if !Self::parse_safe(content) {
            return Err(message_after("Failed to parse standard feed: ", UNSUPPORTED_FEED));
        }
        match parse_feed(content) {
            Ok(entries) => Ok(Self::standard_entry_items(entries.as_slice())),
            Err(e) => Err(message_after("Failed to parse standard feed: ", e.as_str())),
        }
    }

    /// The items of a search-engine news feed, one per entry for its first
    /// ten entries; or why it could not be parsed. A feed holding a play-time
    /// field the parser may fail to convert is refused unread.
    pub fn bing_items(content: &str, now: u64) -> (r: Result<Vec<FeedItem>, String>)
        ensures
            !feed_parse_safe(content@) ==> (r matches Err(e) && e@ == "Failed to parse Bing feed: "@
                + unsupported_feed_message()),
            feed_parse_safe(content@) ==> match (r, parsed_feed(content@)) {
                (Ok(items), Ok(es)) => items@.len() == (if es.len() < 10 {
                    es.len()
                } else {
                    10
                }) && forall|k: int|
                    0 <= k < items@.len() ==> item_parts(#[trigger] items@[k]) == bing_item(
                        es[k],
                        now,
                    ),
                (Err(e), Err(m)) => e@ == "Failed to parse Bing feed: "@ + m,
                _ => false,
            },
    {
        if !Self::parse_safe(content) {
            return Err(message_after("Failed to parse Bing feed: ", UNSUPPORTED_FEED));
        }
        match parse_feed(content) {
            Ok(entries) => Ok(Self::bing_entry_items(entries.as_slice(), now)),
            Err(e) => Err(message_after("Failed to parse Bing feed: ", e.as_str())),
        }
    }
}

/// Why a feed the parser may fail on is refused.
pub const UNSUPPORTED_FEED: &'static str = "a play-time field cannot be converted";

pub open spec fn unsupported_feed_message() -> Seq<char> {
    UNSUPPORTED_FEED@
}

impl RssFetcher {
    /// Whether a source of this kind is read as the search engine's news.
    pub fn is_bing_source(instance_type: &str) -> (b: bool)
        ensures
            b == (instance_type@ == "bing"@),
    {
        String::from_str(instance_type) == String::from_str("bing")
    }
}

/// The browser a feed is asked for as.
pub const USER_AGENT: &'static str = "Mozilla/5.0 (X11; Linux x86_64) AppleWebKit/537.36";

/// The kinds of document a feed is asked for.
pub const ACCEPTED_TYPES: &'static str = "application/rss+xml, application/xml, text/xml";

/// How long a feed is waited for, in seconds.
pub const FETCH_TIMEOUT_SECS: u64 = 3;

impl RssFetcher {
    /// Why a source's answer was refused: its failure status, labelled for
    /// the search engine's news when it came from there.
    pub fn status_error(code: u16, from_bing: bool) -> (r: String)
        requires
            100 <= code <= 999,
        ensures
            r@ == (if from_bing {
                "Bing HTTP "@
            } else {
                "HTTP "@
            }) + crate::status::status_text(code),
    {
        let mut out = if from_bing {
            chars_of("Bing HTTP ")
        } else {
            chars_of("HTTP ")
        };
        let status = crate::status::status_display(code);
        push_str_chars(&mut out, status.as_str());
        string_of(out.as_slice())
    }
}

// ---------------------------------------------------------------------------
// Gathering the sources
// ---------------------------------------------------------------------------

/// The items of the sources that answered, in source order.
pub open spec fn gathered(fetched: Seq<Option<Vec<FeedItem>>>) -> Seq<FeedItem>
    decreases fetched.len(),
{
    if fetched.len() == 0 {
        Seq::<FeedItem>::empty()
    } else {
        gathered(fetched.drop_last()) + match fetched.last() {
            Some(v) => v@,
            None => Seq::<FeedItem>::empty(),
        }
    }
}

pub open spec fn some_answered(fetched: Seq<Option<Vec<FeedItem>>>) -> bool {
    exists|k: int| 0 <= k < fetched.len() && #[trigger] fetched[k] is Some
}

impl RssFetcher {
    /// All items of the sources that answered, or an error when none did.
    pub fn gather(fetched: &[Option<Vec<FeedItem>>]) -> (r: Result<Vec<FeedItem>, String>)
        ensures
            r is Ok <==> some_answered(fetched@),
            r matches Ok(items) ==> items@ == gathered(fetched@),
            r matches Err(e) ==> e@ == "All RSS instances failed"@,
    {
        let mut all: Vec<FeedItem> = Vec::new();
        let mut answered = false;
        let mut k: usize = 0;
        while k < fetched.len()
            invariant
                k <= fetched@.len(),
                all@ == gathered(fetched@.take(k as int)),
                answered == some_answered(fetched@.take(k as int)),
            decreases fetched@.len() - k,
        {
            assert(fetched@.take(k + 1).drop_last() =~= fetched@.take(k as int));
            let ghost before = all@;
            match &fetched[k] {
                Some(items) => {
                    let mut j: usize = 0;
                    while j < items.len()
                        invariant
                            j <= items@.len(),
                            all@ == before + items@.take(j as int),
                        decreases items@.len() - j,
                    {
                        all.push(items[j].copy());
                        j = j + 1;
                        assert(all@ =~= before + items@.take(j as int));
                    }
                    assert(items@.take(j as int) =~= items@);
                    answered = true;
                    assert(fetched@.take(k + 1)[k as int] is Some);
                },
                None => {
                    assert(all@ =~= before + Seq::<FeedItem>::empty());
                    proof {
                        if answered {
                            let w = choose|w: int|
                                0 <= w < k && #[trigger] fetched@.take(k as int)[w] is Some;
                            assert(fetched@.take(k + 1)[w] is Some);
                        }
                        if some_answered(fetched@.take(k + 1)) {
                            let w = choose|w: int|
                                0 <= w < k + 1 && #[trigger] fetched@.take(k + 1)[w] is Some;
                            assert(fetched@.take(k as int)[w] is Some);
                        }
                    }
                },
            }
            k = k + 1;
        }
        assert(fetched@.take(k as int) =~= fetched@);
        if answered {
            Ok(all)
        } else {
            Err(String::from_str("All RSS instances failed"))
        }
    }
}

} // verus!

verus! {

// ---------------------------------------------------------------------------
// Choosing what to post
// ---------------------------------------------------------------------------

/// The link of `item` was already among `seen`.
pub open spec fn seen_before(seen: Seq<FeedItem>, item: FeedItem) -> bool {
    exists|k: int| 0 <= k < seen.len() && #[trigger] seen[k].link@ == item.link@
}

/// Items published after `start_time` whose links were not seen in the
/// previous round, in order.
pub open spec fn fresh_items(current: Seq<FeedItem>, seen: Seq<FeedItem>, start_time: u64) -> Seq<
    FeedItem,
>
    decreases current.len(),
{
    if current.len() == 0 {
        Seq::<FeedItem>::empty()
    } else {
        let prev = fresh_items(current.drop_last(), seen, start_time);
        let item = current.last();
        if item.published_timestamp > start_time && !seen_before(seen, item) {
            prev.push(item)
        } else {
            prev
        }
    }
}

/// Every item posted as new was published after start-up and was not in
/// the previous round, and it was in this one.
pub proof fn law_new_items_are_new(current: Seq<FeedItem>, seen: Seq<FeedItem>, start_time: u64)
    ensures
        forall|k: int|
            0 <= k < fresh_items(current, seen, start_time).len() ==> {
                let item = #[trigger] fresh_items(current, seen, start_time)[k];
                &&& item.published_timestamp > start_time
                &&& !seen_before(seen, item)
                &&& current.contains(item)
            },
    decreases current.len(),
{
    if current.len() > 0 {
        let rest = current.drop_last();
        law_new_items_are_new(rest, seen, start_time);
        let f = fresh_items(current, seen, start_time);
        let g = fresh_items(rest, seen, start_time);
        assert forall|k: int| 0 <= k < f.len() implies {
            let item = #[trigger] f[k];
            &&& item.published_timestamp > start_time
            &&& !seen_before(seen, item)
            &&& current.contains(item)
        } by {
            if k < g.len() {
                assert(f[k] == g[k]);
                let j = choose|j: int| 0 <= j < rest.len() && rest[j] == g[k];
                assert(current[j] == rest[j]);
            } else {
                assert(f[k] == current.last());
                assert(current[current.len() - 1] == current.last());
            }
        }
    }
}

fn seen_before_exec(seen: &[FeedItem], item: &FeedItem) -> (b: bool)
    ensures
        b == seen_before(seen@, *item),
{
    let mut k: usize = 0;
    while k < seen.len()
        invariant
            k <= seen@.len(),
            forall|j: int| 0 <= j < k ==> #[trigger] seen@[j].link@ != item.link@,
        decreases seen@.len() - k,
    {
        if seen[k].link == item.link {
            return true;
        }
        k = k + 1;
    }
    false
}

/// Where a link points to the search engine's news.
pub open spec fn is_bing_link(item: FeedItem) -> bool {
    crate::text::contains_seq(item.link@, "bing.com"@)
}

/// Position `j` goes in `order` (newest first): after every item at least as
/// recent, so items with equal times keep their order.
pub open spec fn insert_by_time(order: Seq<int>, items: Seq<FeedItem>, j: int) -> Seq<int>
    decreases order.len(),
{
    if order.len() == 0 {
        seq![j]
    } else if items[order[0]].published_timestamp < items[j].published_timestamp {
        seq![j] + order
    } else {
        seq![order[0]] + insert_by_time(order.drop_first(), items, j)
    }
}

/// The positions of the first `n` items, newest first; a stable sort.
pub open spec fn newest_first(items: Seq<FeedItem>, n: int) -> Seq<int>
    decreases n,
{
    if n <= 0 {
        Seq::<int>::empty()
    } else {
        insert_by_time(newest_first(items, n - 1), items, n - 1)
    }
}

/// The first item with a search-engine link.
pub open spec fn first_bing(items: Seq<FeedItem>) -> Option<int>
    decreases items.len(),
{
    if items.len() == 0 {
        None
    } else {
        match first_bing(items.drop_last()) {
            Some(i) => Some(i),
            None => if is_bing_link(items.last()) {
                Some(items.len() - 1)
            } else {
                None
            },
        }
    }
}

/// The four most recent items, newest first (all of them when fewer).
pub open spec fn most_recent_four(items: Seq<FeedItem>) -> Seq<FeedItem> {
    let order = newest_first(items, items.len() as int);
    let top = if order.len() <= 4 {
        order
    } else {
        order.take(4)
    };
    top.map_values(|i: int| items[i])
}

/// Some item of `s` links to the search engine's news.
pub open spec fn any_bing(s: Seq<FeedItem>) -> bool {
    exists|k: int| 0 <= k < s.len() && is_bing_link(#[trigger] s[k])
}

/// The items posted on start-up in test mode: the four most recent, plus
/// the first search-engine item when none of those four is one.
pub open spec fn startup_selection(items: Seq<FeedItem>) -> Seq<FeedItem> {
    let picked = most_recent_four(items);
    match first_bing(items) {
        Some(b) => if any_bing(picked) {
            picked
        } else {
            picked.push(items[b])
        },
        None => picked,
    }
}

proof fn lemma_insert_shape(order: Seq<int>, items: Seq<FeedItem>, j: int, p: int)
    requires
        0 <= p <= order.len(),
        forall|k: int| 0 <= k < p ==> !(items[#[trigger] order[k]].published_timestamp
            < items[j].published_timestamp),
        p < order.len() ==> items[order[p]].published_timestamp < items[j].published_timestamp,
    ensures
        insert_by_time(order, items, j) == order.take(p) + seq![j] + order.skip(p),
    decreases order.len(),
{
    if order.len() == 0 {
        assert(order.take(p) + seq![j] + order.skip(p) =~= seq![j]);
    } else if p == 0 {
        assert(order.take(0) + seq![j] + order.skip(0) =~= seq![j] + order);
    } else {
        let rest = order.drop_first();
        assert forall|k: int| 0 <= k < p - 1 implies !(items[#[trigger] rest[k]].published_timestamp
            < items[j].published_timestamp) by {
            assert(rest[k] == order[k + 1]);
        }
        if p < order.len() {
            assert(rest[p - 1] == order[p]);
        }
        lemma_insert_shape(rest, items, j, p - 1);
        assert(seq![order[0]] + (rest.take(p - 1) + seq![j] + rest.skip(p - 1)) =~= order.take(p)
            + seq![j] + order.skip(p));
    }
}

proof fn lemma_newest_first_indices(items: Seq<FeedItem>, n: int)
    requires
        0 <= n <= items.len(),
    ensures
        newest_first(items, n).len() == n,
        forall|k: int| 0 <= k < n ==> 0 <= #[trigger] newest_first(items, n)[k] < n,
    decreases n,
{
    if n > 0 {
        lemma_newest_first_indices(items, n - 1);
        lemma_insert_indices(newest_first(items, n - 1), items, n - 1);
    }
}

proof fn lemma_insert_indices(order: Seq<int>, items: Seq<FeedItem>, j: int)
    requires
        0 <= j,
        forall|k: int| 0 <= k < order.len() ==> 0 <= #[trigger] order[k] < j,
    ensures
        insert_by_time(order, items, j).len() == order.len() + 1,
        forall|k: int|
            0 <= k < order.len() + 1 ==> 0 <= #[trigger] insert_by_time(order, items, j)[k] <= j,
    decreases order.len(),
{
    if order.len() > 0 && !(items[order[0]].published_timestamp < items[j].published_timestamp) {
        let rest = order.drop_first();
        assert forall|k: int| 0 <= k < rest.len() implies 0 <= #[trigger] rest[k] < j by {
            assert(rest[k] == order[k + 1]);
        }
        lemma_insert_indices(rest, items, j);
        let r = insert_by_time(order, items, j);
        assert forall|k: int| 0 <= k < order.len() + 1 implies 0 <= #[trigger] r[k] <= j by {
            if k > 0 {
                assert(r[k] == insert_by_time(rest, items, j)[k - 1]);
            }
        }
    } else {
        let r = insert_by_time(order, items, j);
        assert(r =~= seq![j] + order);
        assert forall|k: int| 0 <= k < order.len() + 1 implies 0 <= #[trigger] r[k] <= j by {
            if k > 0 {
                assert(r[k] == order[k - 1]);
            }
        }
    }
}

fn insert_position(order: &Vec<usize>, items: &[FeedItem], j: usize) -> (p: usize)
    requires
        j < items@.len(),
        forall|k: int| 0 <= k < order@.len() ==> #[trigger] order@[k] < items@.len(),
    ensures
        p <= order@.len(),
        forall|k: int| 0 <= k < p ==> !(items@[#[trigger] order@[k] as int].published_timestamp
            < items@[j as int].published_timestamp),
        p < order@.len() ==> items@[order@[p as int] as int].published_timestamp
            < items@[j as int].published_timestamp,
{
    let mut p: usize = 0;
    while p < order.len() && !(items[order[p]].published_timestamp < items[j].published_timestamp)
        invariant
            p <= order@.len(),
            j < items@.len(),
            forall|k: int| 0 <= k < order@.len() ==> #[trigger] order@[k] < items@.len(),
            forall|k: int| 0 <= k < p ==> !(items@[#[trigger] order@[k] as int].published_timestamp
                < items@[j as int].published_timestamp),
        decreases order@.len() - p,
    {
        p = p + 1;
    }
    p
}

/// The positions of `items`, newest first, equal times in their original
/// order.
pub fn newest_first_order(items: &[FeedItem]) -> (r: Vec<usize>)
    ensures
        r@.len() == items@.len(),
        forall|k: int| 0 <= k < r@.len() ==> #[trigger] r@[k] as int == newest_first(items@, items@.len() as int)[k],
{
    let mut order: Vec<usize> = Vec::new();
    let mut j: usize = 0;
    while j < items.len()
        invariant
            j <= items@.len(),
            order@.len() == j,
            forall|k: int| 0 <= k < j ==> #[trigger] order@[k] as int == newest_first(items@, j as int)[k],
            forall|k: int| 0 <= k < order@.len() ==> #[trigger] order@[k] < j,
        decreases items@.len() - j,
    {
        proof {
            lemma_newest_first_indices(items@, j as int);
        }
        let p = insert_position(&order, items, j);
        let ghost old_order = order@;
        let ghost spec_old = newest_first(items@, j as int);
        assert(old_order.map_values(|v: usize| v as int) =~= spec_old);
        proof {
            assert forall|k: int| 0 <= k < p implies !(items@[#[trigger] spec_old[k]].published_timestamp
                < items@[j as int].published_timestamp) by {
                assert(spec_old[k] == old_order[k] as int);
            }
            if p < old_order.len() {
                assert(spec_old[p as int] == old_order[p as int] as int);
            }
            lemma_insert_shape(spec_old, items@, j as int, p as int);
        }
        order.insert(p, j);
        j = j + 1;
        proof {
            let ns = newest_first(items@, j as int);
            assert(ns == spec_old.take(p as int) + seq![(j - 1) as int] + spec_old.skip(p as int));
            assert forall|k: int| 0 <= k < j implies #[trigger] order@[k] as int == ns[k] by {
                if k < p {
                    assert(order@[k] == old_order[k]);
                } else if k > p {
                    assert(order@[k] == old_order[k - 1]);
                }
            }
        }
    }
    order
}

fn is_bing_item(item: &FeedItem) -> (b: bool)
    ensures
        b == is_bing_link(*item),
{
    crate::text::contains_str(item.link.as_str(), "bing.com")
}

fn first_bing_exec(items: &[FeedItem]) -> (r: Option<usize>)
    ensures
        r matches Some(i) ==> first_bing(items@) == Some(i as int),
        r is None ==> first_bing(items@) is None,
{
    let mut k: usize = 0;
    while k < items.len()
        invariant
            k <= items@.len(),
            first_bing(items@.take(k as int)) is None,
        decreases items@.len() - k,
    {
        assert(items@.take(k + 1).drop_last() =~= items@.take(k as int));
        if is_bing_item(&items[k]) {
            proof {
                lemma_first_bing_prefix(items@, k + 1);
            }
            return Some(k);
        }
        k = k + 1;
    }
    assert(items@.take(k as int) =~= items@);
    None
}

proof fn lemma_first_bing_found(items: Seq<FeedItem>)
    ensures
        first_bing(items) matches Some(b) ==> 0 <= b < items.len() && is_bing_link(items[b]),
    decreases items.len(),
{
    if items.len() > 0 {
        lemma_first_bing_found(items.drop_last());
    }
}

proof fn lemma_first_bing_prefix(items: Seq<FeedItem>, k: int)
    requires
        0 <= k <= items.len(),
        first_bing(items.take(k)) is Some,
    ensures
        first_bing(items) == first_bing(items.take(k)),
    decreases items.len() - k,
{
    if k < items.len() {
        assert(items.take(k + 1).drop_last() =~= items.take(k));
        lemma_first_bing_prefix(items, k + 1);
    } else {
        assert(items.take(k) =~= items);
    }
}

/// The start-up post is made from at most five items, each of them one of
/// the fetched items.
pub proof fn law_startup_selection(items: Seq<FeedItem>)
    ensures
        startup_selection(items).len() <= 5,
        forall|k: int|
            0 <= k < startup_selection(items).len() ==> items.contains(
                #[trigger] startup_selection(items)[k],
            ),
{
    lemma_newest_first_indices(items, items.len() as int);
    lemma_first_bing_found(items);
    let order = newest_first(items, items.len() as int);
    let top = if order.len() <= 4 {
        order
    } else {
        order.take(4)
    };
    let picked = most_recent_four(items);
    assert(picked == top.map_values(|i: int| items[i]));
    assert forall|k: int| 0 <= k < picked.len() implies items.contains(#[trigger] picked[k]) by {
        assert(picked[k] == items[top[k]]);
        assert(top[k] == order[k]);
    }
    let sel = startup_selection(items);
    assert forall|k: int| 0 <= k < sel.len() implies items.contains(#[trigger] sel[k]) by {
        if k < picked.len() {
            assert(sel[k] == picked[k]);
        } else {
            let b = first_bing(items).unwrap();
            assert(sel[k] == items[b]);
        }
    }
}

pub struct RssSubscriber;

impl RssSubscriber {
    /// The items of this round that were published after start-up and whose
    /// links were not in the previous round.
    pub fn new_items(current: &[FeedItem], last: &[FeedItem], start_time: u64) -> (r: Vec<FeedItem>)
        ensures
            r@ == fresh_items(current@, last@, start_time),
    {
        let mut r: Vec<FeedItem> = Vec::new();
        let mut k: usize = 0;
        while k < current.len()
            invariant
                k <= current@.len(),
                r@ == fresh_items(current@.take(k as int), last@, start_time),
            decreases current@.len() - k,
        {
            assert(current@.take(k + 1).drop_last() =~= current@.take(k as int));
            let item = &current[k];
            if item.published_timestamp > start_time && !seen_before_exec(last, item) {
                r.push(item.copy());
            }
            k = k + 1;
        }
        assert(current@.take(k as int) =~= current@);
        r
    }

    /// The items posted at start-up in test mode: the four most recent, and
    /// the first search-engine item when none of those is one.
    pub fn startup_items(items: &[FeedItem]) -> (r: Vec<FeedItem>)
        ensures
            r@ == startup_selection(items@),
    {
        let bing = first_bing_exec(items);
        let order = newest_first_order(items);
        proof {
            lemma_newest_first_indices(items@, items@.len() as int);
        }
        let ghost spec_order = newest_first(items@, items@.len() as int);
        let ghost top = if spec_order.len() <= 4 {
            spec_order
        } else {
            spec_order.take(4)
        };
        let ghost picked = most_recent_four(items@);
        assert(picked == top.map_values(|i: int| items@[i]));
        let mut selected: Vec<FeedItem> = Vec::new();
        let mut has_bing = false;
        let mut k: usize = 0;
        while k < order.len() && k < 4
            invariant
                k <= order@.len(),
                k <= 4,
                order@.len() == items@.len(),
                spec_order.len() == items@.len(),
                forall|m: int| 0 <= m < order@.len() ==> #[trigger] order@[m] as int == spec_order[m],
                forall|m: int| 0 <= m < items@.len() ==> 0 <= #[trigger] spec_order[m] < items@.len(),
                top == (if spec_order.len() <= 4 {
                    spec_order
                } else {
                    spec_order.take(4)
                }),
                picked == top.map_values(|i: int| items@[i]),
                picked == most_recent_four(items@),
                selected@ == picked.take(k as int),
                has_bing == exists|m: int| 0 <= m < k && is_bing_link(#[trigger] picked[m]),
            decreases order@.len() - k,
        {
            let item = &items[order[k]];
            assert(picked[k as int] == items@[order@[k as int] as int]);
            if is_bing_item(item) {
                has_bing = true;
            }
            selected.push(item.copy());
            k = k + 1;
            assert(selected@ =~= picked.take(k as int));
        }
        assert(picked.len() == k);
        assert(picked.take(k as int) =~= picked);
        assert(has_bing == any_bing(picked));
        proof {
            lemma_first_bing_found(items@);
        }
        match bing {
            Some(b) => {
                if !has_bing {
                    selected.push(items[b].copy());
                    assert(selected@ =~= picked.push(items@[b as int]));
                }
            },
            None => {},
        }
        selected
    }
}

} // verus!
