//! News posting: which feed items make a post, how their texts are combined,
//! and how a long generated description is split over several embeds.
use vstd::prelude::*;
use crate::text::{
    chars_of, is_blank, is_blank_str, normalize_spaces, push_decimal, push_str_chars,
    slice_chars, string_of,
};
use crate::discord::{
    ellipsis, last_space, lemma_last_space_bounds, remove_quotes, safe_truncate, safe_truncate_chars,
    safe_truncated, sanitize_discord_text, sanitized, skip_ws, unquoted,
    DISCORD_EMBED_DESCRIPTION_LIMIT, DISCORD_EMBED_TITLE_LIMIT, MAX_CHUNK_BYTES,
    TRUNCATION_BUFFER,
};

verus! {

broadcast use vstd::seq_lib::group_seq_properties;

/// One entry of a news feed.
#[derive(Clone, Debug)]
pub struct FeedItem {
    pub title: String,
    pub link: String,
    pub description: String,
    pub published_timestamp: u64,
}

impl FeedItem {
    pub fn copy(&self) -> (r: FeedItem)
        ensures
            r == *self,
    {
        FeedItem {
            title: self.title.clone(),
            link: self.link.clone(),
            description: self.description.clone(),
            published_timestamp: self.published_timestamp,
        }
    }
}

pub struct DiscordPoster;

/// Items worth posting have a title and a description that are not blank.
pub open spec fn postable(item: FeedItem) -> bool {
    !is_blank(item.title@) && !is_blank(item.description@)
}

pub open spec fn postable_items(items: Seq<FeedItem>) -> Seq<FeedItem>
    decreases items.len(),
{
    if items.len() == 0 {
        Seq::<FeedItem>::empty()
    } else {
        let prev = postable_items(items.drop_last());
        if postable(items.last()) {
            prev.push(items.last())
        } else {
            prev
        }
    }
}

/// The items a post is made from: the first five postable ones.
pub open spec fn news_selection(items: Seq<FeedItem>) -> Seq<FeedItem> {
    let p = postable_items(items);
    if p.len() <= 5 {
        p
    } else {
        p.take(5)
    }
}

/// `parts` separated by `sep`.
pub open spec fn joined(parts: Seq<Seq<char>>, sep: Seq<char>) -> Seq<char>
    decreases parts.len(),
{
    if parts.len() == 0 {
        Seq::<char>::empty()
    } else if parts.len() == 1 {
        parts[0]
    } else {
        joined(parts.drop_last(), sep) + sep + parts.last()
    }
}

/// The largest publication time among `items`, if any is positive.
pub open spec fn max_timestamp(items: Seq<FeedItem>) -> nat
    decreases items.len(),
{
    if items.len() == 0 {
        0
    } else {
        let m = max_timestamp(items.drop_last());
        if items.last().published_timestamp > m {
            items.last().published_timestamp as nat
        } else {
            m
        }
    }
}

/// Law: the latest publication time is at least every item's and is one of
/// them (zero only for no items, or when every item has zero).
pub proof fn law_max_timestamp_is_the_largest(items: Seq<FeedItem>)
    ensures
        forall|i: int|
            0 <= i < items.len() ==> (#[trigger] items[i]).published_timestamp <= max_timestamp(
                items,
            ),
        items.len() > 0 ==> exists|i: int|
            0 <= i < items.len() && (#[trigger] items[i]).published_timestamp == max_timestamp(
                items,
            ),
        max_timestamp(items) == 0 ==> forall|i: int|
            0 <= i < items.len() ==> (#[trigger] items[i]).published_timestamp == 0,
    decreases items.len(),
{
    if items.len() > 0 {
        let init = items.drop_last();
        law_max_timestamp_is_the_largest(init);
        assert forall|i: int| 0 <= i < items.len() implies (#[trigger] items[i]).published_timestamp
            <= max_timestamp(items) by {
            if i < items.len() - 1 {
                assert(items[i] == init[i]);
            }
        }
        if items.last().published_timestamp > max_timestamp(init) {
            assert(items[items.len() - 1].published_timestamp == max_timestamp(items));
        } else if init.len() > 0 {
            let i = choose|i: int|
                0 <= i < init.len() && (#[trigger] init[i]).published_timestamp == max_timestamp(
                    init,
                );
            assert(items[i] == init[i]);
        } else {
            assert(items[0].published_timestamp == max_timestamp(items));
        }
    }
}

/// Law: the embed's timestamp, for items whose times fit in signed seconds,
/// is the largest of them when that is positive, and absent only when every
/// item has time zero.
pub proof fn law_latest_timestamp_is_the_largest(items: Seq<FeedItem>)
    requires
        forall|i: int| 0 <= i < items.len() ==> (#[trigger] items[i]).published_timestamp <= i64::MAX,
    ensures
        ({
            let latest = as_signed(max_timestamp(items));
            &&& latest > 0 ==> (forall|i: int|
                0 <= i < items.len() ==> (#[trigger] items[i]).published_timestamp <= latest)
                && exists|i: int|
                0 <= i < items.len() && (#[trigger] items[i]).published_timestamp == latest
            &&& latest <= 0 ==> forall|i: int|
                0 <= i < items.len() ==> (#[trigger] items[i]).published_timestamp == 0
        }),
{
    law_max_timestamp_is_the_largest(items);
    let m = max_timestamp(items);
    if items.len() > 0 {
        let i = choose|i: int|
            0 <= i < items.len() && (#[trigger] items[i]).published_timestamp == m;
        assert(m <= i64::MAX);
        let mu = m as u64;
        assert(mu == m);
        assert(mu <= 0x7fff_ffff_ffff_ffffu64 ==> (mu as i64) as int == mu as int) by (bit_vector);
        assert(as_signed(m) == m);
    } else {
        assert(m == 0);
    }
}

/// A timestamp as the embed's signed seconds, wrapping as an `as` cast does.
pub open spec fn as_signed(t: nat) -> i64 {
    (t as u64) as i64
}

/// How a generated title is finished: quotes removed, sanitised, and cut to
/// the title limit when it has more characters than that.
pub open spec fn finished_title(raw: Seq<char>) -> Seq<char> {
    let t = sanitized(normalize_spaces(unquoted(raw)));
    if t.len() > DISCORD_EMBED_TITLE_LIMIT {
        safe_truncated(t, DISCORD_EMBED_TITLE_LIMIT as nat)
    } else {
        t
    }
}

impl DiscordPoster {
    /// The first five items with a non-blank title and description.
    pub fn select_items(items: &[FeedItem]) -> (r: Vec<&FeedItem>)
        ensures
            r@.len() == news_selection(items@).len(),
            forall|k: int| 0 <= k < r@.len() ==> *#[trigger] r@[k] == news_selection(items@)[k],
    {
        let mut r: Vec<&FeedItem> = Vec::new();
        let mut i: usize = 0;
        while i < items.len()
            invariant_except_break
                i <= items@.len(),
                r@.len() <= 5,
                r@.len() == postable_items(items@.take(i as int)).len(),
                forall|k: int|
                    0 <= k < r@.len() ==> *#[trigger] r@[k] == postable_items(
                        items@.take(i as int),
                    )[k],
            ensures
                r@.len() == news_selection(items@).len(),
                forall|k: int| 0 <= k < r@.len() ==> *#[trigger] r@[k] == news_selection(items@)[k],
            decreases items@.len() - i,
        {
            assert(items@.take(i + 1).drop_last() =~= items@.take(i as int));
            if r.len() == 5 {
                proof {
                    lemma_postable_prefix(items@, i as int);
                }
                break;
            }
            let item = &items[i];
            if !is_blank_str(item.title.as_str()) && !is_blank_str(item.description.as_str()) {
                r.push(item);
            }
            i = i + 1;
            proof {
                if i == items@.len() {
                    assert(items@.take(i as int) =~= items@);
                }
            }
        }
        proof {
            if items@.len() == 0 {
                assert(items@.take(0) =~= items@);
            }
        }
        r
    }

    /// The sanitised titles joined with `", "`.
    pub fn combined_titles(items: &[&FeedItem]) -> (r: String)
        ensures
            r@ == joined(
                items@.map_values(|i: &FeedItem| sanitized(i.title@)),
                ", "@,
            ),
    {
        let ghost parts = items@.map_values(|i: &FeedItem| sanitized(i.title@));
        let mut out: Vec<char> = Vec::new();
        let mut k: usize = 0;
        while k < items.len()
            invariant
                k <= items@.len(),
                parts == items@.map_values(|i: &FeedItem| sanitized(i.title@)),
                out@ == joined(parts.take(k as int), ", "@),
            decreases items@.len() - k,
        {
            assert(parts.take(k + 1).drop_last() =~= parts.take(k as int));
            if k > 0 {
                push_str_chars(&mut out, ", ");
            }
            let t = sanitize_discord_text(items[k].title.as_str());
            push_str_chars(&mut out, t.as_str());
            k = k + 1;
            proof {
                if k == 1 {
                    assert(out@ =~= parts.take(1)[0]);
                }
            }
        }
        assert(parts.take(k as int) =~= parts);
        string_of(out.as_slice())
    }

    /// The sanitised descriptions joined with `". "`.
    pub fn combined_descriptions(items: &[&FeedItem]) -> (r: String)
        ensures
            r@ == joined(
                items@.map_values(|i: &FeedItem| sanitized(i.description@)),
                ". "@,
            ),
    {
        let ghost parts = items@.map_values(|i: &FeedItem| sanitized(i.description@));
        let mut out: Vec<char> = Vec::new();
        let mut k: usize = 0;
        while k < items.len()
            invariant
                k <= items@.len(),
                parts == items@.map_values(|i: &FeedItem| sanitized(i.description@)),
                out@ == joined(parts.take(k as int), ". "@),
            decreases items@.len() - k,
        {
            assert(parts.take(k + 1).drop_last() =~= parts.take(k as int));
            if k > 0 {
                push_str_chars(&mut out, ". ");
            }
            let t = sanitize_discord_text(items[k].description.as_str());
            push_str_chars(&mut out, t.as_str());
            k = k + 1;
            proof {
                if k == 1 {
                    assert(out@ =~= parts.take(1)[0]);
                }
            }
        }
        assert(parts.take(k as int) =~= parts);
        string_of(out.as_slice())
    }

    /// The embed's timestamp: the latest publication time among the items,
    /// when it is positive.
    pub fn latest_timestamp(items: &[&FeedItem]) -> (r: Option<i64>)
        ensures
            ({
                let latest = as_signed(
                    max_timestamp(items@.map_values(|i: &FeedItem| *i)),
                );
                r == if latest > 0 {
                    Some(latest)
                } else {
                    None::<i64>
                }
            }),
    {
        let ghost its = items@.map_values(|i: &FeedItem| *i);
        let mut m: u64 = 0;
        let mut k: usize = 0;
        while k < items.len()
            invariant
                k <= items@.len(),
                its == items@.map_values(|i: &FeedItem| *i),
                m == max_timestamp(its.take(k as int)),
            decreases items@.len() - k,
        {
            assert(its.take(k + 1).drop_last() =~= its.take(k as int));
            if items[k].published_timestamp > m {
                m = items[k].published_timestamp;
            }
            k = k + 1;
        }
        assert(its.take(k as int) =~= its);
        let latest = m as i64;
        if latest > 0 {
            Some(latest)
        } else {
            None
        }
    }

    /// Finishes a generated title: quotes removed, sanitised, and cut to the
    /// title limit when it has more characters than that.
    pub fn finish_title(raw: &str) -> (r: String)
        ensures
            r@ == finished_title(raw@),
    {
        let unquoted = remove_quotes(raw);
        let t = sanitize_discord_text(unquoted.as_str());
        let v = chars_of(t.as_str());
        if v.len() > DISCORD_EMBED_TITLE_LIMIT {
            safe_truncate(t.as_str(), DISCORD_EMBED_TITLE_LIMIT)
        } else {
            t
        }
    }
}

proof fn lemma_postable_items(items: Seq<FeedItem>)
    ensures
        postable_items(items).len() <= items.len(),
        forall|k: int|
            0 <= k < postable_items(items).len() ==> postable(#[trigger] postable_items(items)[k])
                && items.contains(postable_items(items)[k]),
    decreases items.len(),
{
    if items.len() > 0 {
        let rest = items.drop_last();
        lemma_postable_items(rest);
        let p = postable_items(items);
        let q = postable_items(rest);
        assert forall|k: int| 0 <= k < p.len() implies postable(#[trigger] p[k]) && items.contains(
            p[k],
        ) by {
            if k < q.len() {
                assert(p[k] == q[k]);
                let j = choose|j: int| 0 <= j < rest.len() && rest[j] == q[k];
                assert(items[j] == rest[j]);
            } else {
                assert(p[k] == items.last());
                assert(items[items.len() - 1] == items.last());
            }
        }
    }
}

/// A post is made from at most five items, each of them one of the
/// fetched items, with a title and a description that are not blank.
pub proof fn law_news_selection(items: Seq<FeedItem>)
    ensures
        news_selection(items).len() <= 5,
        forall|k: int|
            0 <= k < news_selection(items).len() ==> postable(#[trigger] news_selection(items)[k])
                && items.contains(news_selection(items)[k]),
{
    lemma_postable_items(items);
    let p = postable_items(items);
    assert forall|k: int| 0 <= k < news_selection(items).len() implies postable(
        #[trigger] news_selection(items)[k],
    ) && items.contains(news_selection(items)[k]) by {
        assert(news_selection(items)[k] == p[k]);
    }
}

proof fn lemma_postable_prefix(items: Seq<FeedItem>, i: int)
    requires
        0 <= i <= items.len(),
        postable_items(items.take(i)).len() == 5,
    ensures
        news_selection(items) == postable_items(items.take(i)),
    decreases items.len() - i,
{
    lemma_postable_extends(items, i, items.len() as int);
    assert(items.take(items.len() as int) =~= items);
}

proof fn lemma_postable_extends(items: Seq<FeedItem>, i: int, j: int)
    requires
        0 <= i <= j <= items.len(),
    ensures
        postable_items(items.take(i)).len() <= postable_items(items.take(j)).len(),
        postable_items(items.take(j)).take(postable_items(items.take(i)).len() as int)
            == postable_items(items.take(i)),
    decreases j - i,
{
    if i < j {
        lemma_postable_extends(items, i, j - 1);
        assert(items.take(j).drop_last() =~= items.take(j - 1));
        let a = postable_items(items.take(i));
        let b = postable_items(items.take(j - 1));
        let c = postable_items(items.take(j));
        if postable(items[j - 1]) {
            assert(c =~= b.push(items[j - 1]));
            assert(c.take(a.len() as int) =~= b.take(a.len() as int));
        }
    } else {
        let a = postable_items(items.take(i));
        assert(a.take(a.len() as int) =~= a);
    }
}

// ---------------------------------------------------------------------------
// Splitting a long description
// ---------------------------------------------------------------------------

pub open spec fn min_int(a: int, b: int) -> int {
    if a < b {
        a
    } else {
        b
    }
}

pub open spec fn max_int(a: int, b: int) -> int {
    if a > b {
        a
    } else {
        b
    }
}

/// Where the chunk starting at `pos` ends: after at most `max` characters,
/// moved back to the last space within the last `TRUNCATION_BUFFER`
/// characters unless the text ends there.
pub open spec fn chunk_end(cs: Seq<char>, pos: int, max: int) -> int {
    let end0 = pos + min_int(max, cs.len() - pos);
    if end0 < cs.len() {
        let ss = max_int(pos, end0 - TRUNCATION_BUFFER);
        match last_space(cs.subrange(ss, end0)) {
            Some(k) => ss + k,
            None => end0,
        }
    } else {
        end0
    }
}

pub proof fn lemma_chunk_end(cs: Seq<char>, pos: int, max: int)
    requires
        0 <= pos < cs.len(),
        max > 0,
    ensures
        pos <= chunk_end(cs, pos, max) <= cs.len(),
        chunk_end(cs, pos, max) <= pos + max,
        chunk_end(cs, pos, max) == pos ==> cs[pos] == ' ',
{
    let end0 = pos + min_int(max, cs.len() - pos);
    if end0 < cs.len() {
        let ss = max_int(pos, end0 - TRUNCATION_BUFFER);
        lemma_last_space_bounds(cs.subrange(ss, end0));
        if let Some(k) = last_space(cs.subrange(ss, end0)) {
            assert(cs.subrange(ss, end0)[k] == cs[ss + k]);
        }
    }
}

pub proof fn lemma_skip_ws_after(s: Seq<char>, i: int)
    requires
        0 <= i <= s.len(),
    ensures
        i <= skip_ws(s, i) <= s.len(),
        i < s.len() && crate::text::is_ws(s[i]) ==> skip_ws(s, i) > i,
    decreases s.len() - i,
{
    if i < s.len() && crate::text::is_ws(s[i]) {
        lemma_skip_ws_after(s, i + 1);
    }
}

/// The chunks from `pos` on: each chunk is followed by `"..."` unless it is
/// the last, and the whitespace after a chunk is dropped.
pub open spec fn chunks_from(cs: Seq<char>, pos: int, max: int) -> Seq<Seq<char>>
    decreases cs.len() - pos,
{
    if pos < 0 || pos >= cs.len() || max <= 0 {
        Seq::<Seq<char>>::empty()
    } else {
        let end = chunk_end(cs, pos, max);
        let chunk = if end < cs.len() {
            cs.subrange(pos, end) + ellipsis()
        } else {
            cs.subrange(pos, end)
        };
        proof {
            lemma_chunk_end(cs, pos, max);
            lemma_skip_ws_after(cs, end);
        }
        seq![chunk] + chunks_from(cs, skip_ws(cs, end), max)
    }
}

/// Every chunk holds at most `max` characters of the text, and three more
/// for the `"..."` that marks it as continued.
pub proof fn law_chunks_bounded(cs: Seq<char>, pos: int, max: int)
    requires
        max > 0,
    ensures
        forall|k: int|
            0 <= k < chunks_from(cs, pos, max).len() ==> #[trigger] chunks_from(cs, pos, max)[k].len()
                <= max + 3,
    decreases cs.len() - pos,
{
    if 0 <= pos < cs.len() {
        let end = chunk_end(cs, pos, max);
        lemma_chunk_end(cs, pos, max);
        lemma_skip_ws_after(cs, end);
        let next = skip_ws(cs, end);
        if next <= pos {
            assert(end == pos);
        }
        law_chunks_bounded(cs, next, max);
        let all = chunks_from(cs, pos, max);
        let rest = chunks_from(cs, next, max);
        assert forall|k: int| 0 <= k < all.len() implies #[trigger] all[k].len() <= max + 3 by {
            if k > 0 {
                assert(all[k] == rest[k - 1]);
            }
        }
    }
}

fn last_space_from(cs: &[char], lo: usize, hi: usize) -> (r: Option<usize>)
    requires
        lo <= hi <= cs@.len(),
    ensures
        r matches Some(k) ==> last_space(cs@.subrange(lo as int, hi as int)) == Some(k as int),
        r is None ==> last_space(cs@.subrange(lo as int, hi as int)) is None,
{
    let mut k = hi;
    while k > lo
        invariant
            lo <= k <= hi,
            hi <= cs@.len(),
            last_space(cs@.subrange(lo as int, hi as int)) == last_space(
                cs@.subrange(lo as int, k as int),
            ),
        decreases k,
    {
        assert(cs@.subrange(lo as int, k as int).drop_last() =~= cs@.subrange(lo as int, k - 1));
        if cs[k - 1] == ' ' {
            return Some(k - 1 - lo);
        }
        k = k - 1;
    }
    None
}

/// Splits a description into chunks of at most `max_chunk` characters
/// (plus the `"..."` that marks a chunk as continued), preferring to break at
/// a space.
pub fn split_into_chunks(description: &[char], max_chunk: usize) -> (r: Vec<Vec<char>>)
    requires
        max_chunk > 0,
    ensures
        r@.len() == chunks_from(description@, 0, max_chunk as int).len(),
        forall|k: int|
            0 <= k < r@.len() ==> #[trigger] r@[k]@ == chunks_from(description@, 0, max_chunk as int)[k],
{
    let cs = description;
    let ghost all = chunks_from(cs@, 0, max_chunk as int);
    let mut chunks: Vec<Vec<char>> = Vec::new();
    let mut pos: usize = 0;
    while pos < cs.len()
        invariant
            pos <= cs@.len(),
            max_chunk > 0,
            chunks@.len() + chunks_from(cs@, pos as int, max_chunk as int).len() == all.len(),
            forall|k: int| 0 <= k < chunks@.len() ==> #[trigger] chunks@[k]@ == all[k],
            forall|k: int|
                0 <= k < chunks_from(cs@, pos as int, max_chunk as int).len() ==> #[trigger] chunks_from(
                    cs@,
                    pos as int,
                    max_chunk as int,
                )[k] == all[chunks@.len() + k],
        decreases cs@.len() - pos,
    {
        let remaining = cs.len() - pos;
        let chunk_size = if max_chunk < remaining {
            max_chunk
        } else {
            remaining
        };
        let mut end_pos = pos + chunk_size;
        if end_pos < cs.len() {
            let search_start = if end_pos - pos >= TRUNCATION_BUFFER {
                end_pos - TRUNCATION_BUFFER
            } else {
                pos
            };
            match last_space_from(cs, search_start, end_pos) {
                Some(space_pos) => {
                    proof {
                        lemma_last_space_bounds(cs@.subrange(search_start as int, end_pos as int));
                    }
                    end_pos = search_start + space_pos;
                },
                None => {},
            }
        }
        proof {
            lemma_chunk_end(cs@, pos as int, max_chunk as int);
            assert(end_pos == chunk_end(cs@, pos as int, max_chunk as int));
        }
        let mut chunk = slice_chars(cs, pos, end_pos);
        if end_pos < cs.len() {
            push_str_chars(&mut chunk, "...");
            proof {
                reveal_strlit("...");
                assert("..."@ =~= ellipsis());
            }
        }
        let ghost rest = chunks_from(cs@, pos as int, max_chunk as int);
        let ghost before = chunks@.len();
        chunks.push(chunk);
        let mut next = end_pos;
        while next < cs.len() && crate::text::is_whitespace_char(cs[next])
            invariant
                end_pos <= next <= cs@.len(),
                skip_ws(cs@, next as int) == skip_ws(cs@, end_pos as int),
            decreases cs@.len() - next,
        {
            next = next + 1;
        }
        proof {
            lemma_skip_ws_after(cs@, end_pos as int);
            assert(rest[0] == chunks@[before as int]@);
            assert forall|k: int|
                0 <= k < chunks_from(cs@, next as int, max_chunk as int).len() implies #[trigger] chunks_from(
                cs@,
                next as int,
                max_chunk as int,
            )[k] == all[chunks@.len() + k] by {
                assert(chunks_from(cs@, next as int, max_chunk as int)[k] == rest[k + 1]);
            }
        }
        pos = next;
    }
    chunks
}

/// The title of the `n`-th part of a split post, cut to the title limit
/// when it has more characters than that.
pub open spec fn part_title(title: Seq<char>, n: nat) -> Seq<char> {
    let t = title + " (часть "@ + crate::text::decimal(n) + ")"@;
    if t.len() > DISCORD_EMBED_TITLE_LIMIT {
        safe_truncated(t, DISCORD_EMBED_TITLE_LIMIT as nat)
    } else {
        t
    }
}

fn continuation_title(title: &str, n: u64) -> (r: String)
    ensures
        r@ == part_title(title@, n as nat),
{
    let mut out: Vec<char> = Vec::new();
    push_str_chars(&mut out, title);
    push_str_chars(&mut out, " (часть ");
    push_decimal(&mut out, n);
    push_str_chars(&mut out, ")");
    let s = string_of(out.as_slice());
    if out.len() > DISCORD_EMBED_TITLE_LIMIT {
        safe_truncate(s.as_str(), DISCORD_EMBED_TITLE_LIMIT)
    } else {
        s
    }
}

/// The embeds (title, description) a news post is sent as: one embed, or,
/// when the description has more characters than the description limit, one
/// per chunk, the later ones titled as continued parts.
pub open spec fn news_embeds(title: Seq<char>, description: Seq<char>) -> Seq<(Seq<char>, Seq<char>)> {
    if description.len() > DISCORD_EMBED_DESCRIPTION_LIMIT {
        let chunks = chunks_from(description, 0, MAX_CHUNK_BYTES as int);
        Seq::new(
            chunks.len(),
            |k: int|
                if k == 0 {
                    (title, chunks[0])
                } else {
                    (part_title(title, (k + 1) as nat), chunks[k])
                },
        )
    } else {
        seq![(title, description)]
    }
}

impl DiscordPoster {
    /// The embeds a post with this title and description is sent as.
    pub fn plan_embeds(title: &str, description: &str) -> (r: Vec<(String, String)>)
        ensures
            r@.len() == news_embeds(title@, description@).len(),
            forall|k: int|
                0 <= k < r@.len() ==> (#[trigger] r@[k].0@, r@[k].1@) == news_embeds(
                    title@,
                    description@,
                )[k],
    {
        let d = chars_of(description);
        let mut out: Vec<(String, String)> = Vec::new();
        if d.len() <= DISCORD_EMBED_DESCRIPTION_LIMIT {
            out.push((String::from_str(title), String::from_str(description)));
            return out;
        }
        let chunks = split_into_chunks(d.as_slice(), MAX_CHUNK_BYTES);
        let ghost spec = news_embeds(title@, description@);
        let mut k: usize = 0;
        while k < chunks.len()
            invariant
                k <= chunks@.len(),
                d@ == description@,
                d@.len() > DISCORD_EMBED_DESCRIPTION_LIMIT,
                spec == news_embeds(title@, description@),
                spec.len() == chunks@.len(),
                chunks@.len() == chunks_from(d@, 0, MAX_CHUNK_BYTES as int).len(),
                forall|j: int|
                    0 <= j < chunks@.len() ==> #[trigger] chunks@[j]@ == chunks_from(d@, 0, MAX_CHUNK_BYTES as int)[j],
                out@.len() == k,
                forall|j: int| 0 <= j < k ==> (#[trigger] out@[j].0@, out@[j].1@) == spec[j],
            decreases chunks@.len() - k,
        {
            let t = if k == 0 {
                String::from_str(title)
            } else {
                continuation_title(title, (k + 1) as u64)
            };
            out.push((t, string_of(chunks[k].as_slice())));
            k = k + 1;
        }
        out
    }
}

} // verus!
