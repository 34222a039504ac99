//! Conversation memory: the exchanges kept per channel, the chat overheard
//! across channels, and the latest news summary.
use vstd::prelude::*;
use smallvec::SmallVec;

verus! {

/// How many earlier exchanges of a channel go into a reply's prompt.
pub const HISTORY_LIMIT: usize = 7;

/// How many overheard messages are kept before the next one is added.
pub const GLOBAL_HISTORY_LIMIT: usize = 25;

/// The request written into a news channel's history before a reply, so
/// that the model sees the latest news as its own earlier answer.
pub const NEWS_REQUEST: &'static str = "Рарити, расскажи новости";

/// The last `n` elements of `s` (all of them when there are fewer).
pub open spec fn keep_last<T>(s: Seq<T>, n: nat) -> Seq<T> {
    if s.len() > n {
        s.skip(s.len() - n)
    } else {
        s
    }
}

/// The views of (author, message, reply) triples.
pub open spec fn triple_views(s: Seq<(String, String, String)>) -> Seq<(Seq<char>, Seq<char>, Seq<char>)> {
    s.map_values(|t: (String, String, String)| (t.0@, t.1@, t.2@))
}

/// The views of (author, message) pairs.
pub open spec fn pair_views(s: Seq<(String, String)>) -> Seq<(Seq<char>, Seq<char>)> {
    s.map_values(|t: (String, String)| (t.0@, t.1@))
}

// ---------------------------------------------------------------------------
// A channel's exchanges
// ---------------------------------------------------------------------------

/// A channel's recent exchanges, oldest first.
#[verifier::external_body]
pub struct ConversationHistory {
    messages: SmallVec<[(String, String, String); 8]>,
}

/// What a channel's history holds: (author, message, reply), oldest first.
pub uninterp spec fn exchanges(h: ConversationHistory) -> Seq<(Seq<char>, Seq<char>, Seq<char>)>;

/// `SmallVec::new`: a history with nothing in it.
#[verifier::external_body]
fn exchanges_new() -> (r: ConversationHistory)
    ensures
        exchanges(r) == Seq::<(Seq<char>, Seq<char>, Seq<char>)>::empty(),
{
    ConversationHistory { messages: SmallVec::new() }
}

/// `SmallVec::len`: the number of exchanges held.
#[verifier::external_body]
fn exchanges_len(h: &ConversationHistory) -> (r: usize)
    ensures
        r == exchanges(*h).len(),
{
    h.messages.len()
}

/// `SmallVec::push`: appends one exchange.
#[verifier::external_body]
fn exchanges_push(h: &mut ConversationHistory, e: (String, String, String))
    ensures
        exchanges(*final(h)) == exchanges(*old(h)).push((e.0@, e.1@, e.2@)),
{
    h.messages.push(e);
}

/// `SmallVec::drain` over `0..n`, its iterator dropped at once: the first
/// `n` exchanges leave.
#[verifier::external_body]
fn exchanges_drain_front(h: &mut ConversationHistory, n: usize)
    requires
        n <= exchanges(*old(h)).len(),
    ensures
        exchanges(*final(h)) == exchanges(*old(h)).skip(n as int),
{
    h.messages.drain(0..n);
}

/// `SmallVec::clone`: a copy whose exchanges are clones of these; a cloned
/// `String` equals its original.
#[verifier::external_body]
fn exchanges_clone(h: &ConversationHistory) -> (r: ConversationHistory)
    ensures
        exchanges(r) == exchanges(*h),
{
    ConversationHistory { messages: h.messages.clone() }
}

/// `SmallVec::as_slice`: the exchanges in order.
#[verifier::external_body]
fn exchanges_slice(h: &ConversationHistory) -> (r: &[(String, String, String)])
    ensures
        triple_views(r@) == exchanges(*h),
{
    h.messages.as_slice()
}

impl ConversationHistory {
    /// A history with no exchanges.
    pub fn new() -> (r: Self)
        ensures
            exchanges(r) == Seq::<(Seq<char>, Seq<char>, Seq<char>)>::empty(),
    {
        exchanges_new()
    }

    /// The number of exchanges held.
    pub fn len(&self) -> (r: usize)
        ensures
            r == exchanges(*self).len(),
    {
        exchanges_len(self)
    }

    /// The exchanges, oldest first, as (author, message, reply).
    pub fn entries(&self) -> (r: &[(String, String, String)])
        ensures
            triple_views(r@) == exchanges(*self),
    {
        exchanges_slice(self)
    }

    /// Adds an exchange after the others.
    pub fn record(&mut self, author: String, message: String, reply: String)
        ensures
            exchanges(*final(self)) == exchanges(*old(self)).push((author@, message@, reply@)),
    {
        exchanges_push(self, (author, message, reply));
    }
}

/// The history a reply is generated from: the channel's last
/// `HISTORY_LIMIT` exchanges, and, in the news channel, the news request
/// answered with the latest news.
pub open spec fn prepared_history(
    stored: Seq<(Seq<char>, Seq<char>, Seq<char>)>,
    in_news_channel: bool,
    author: Seq<char>,
    last_news: Seq<char>,
) -> Seq<(Seq<char>, Seq<char>, Seq<char>)> {
    let recent = keep_last(stored, HISTORY_LIMIT as nat);
    if in_news_channel {
        recent.push((author, NEWS_REQUEST@, last_news))
    } else {
        recent
    }
}

/// The exchange recorded last in a channel is the last one the next reply
/// there sees, or, in the news channel, the one before the news request.
pub proof fn law_recorded_exchange_is_remembered(
    stored: Seq<(Seq<char>, Seq<char>, Seq<char>)>,
    exchange: (Seq<char>, Seq<char>, Seq<char>),
    in_news_channel: bool,
    author: Seq<char>,
    last_news: Seq<char>,
)
    ensures
        ({
            let h = prepared_history(stored.push(exchange), in_news_channel, author, last_news);
            if in_news_channel {
                h[h.len() - 2] == exchange && h.last() == (author, NEWS_REQUEST@, last_news)
            } else {
                h.last() == exchange
            }
        }),
{
    let s = stored.push(exchange);
    let recent = keep_last(s, HISTORY_LIMIT as nat);
    assert(recent.last() == exchange);
    assert(recent.len() > 0);
}

/// Builds the history a reply is generated from, out of what the channel
/// has stored (nothing when it has no entry yet).
pub fn prepare_history(
    stored: Option<&ConversationHistory>,
    in_news_channel: bool,
    author: &str,
    last_news: &str,
) -> (r: ConversationHistory)
    ensures
        exchanges(r) == prepared_history(
            match stored {
                Some(h) => exchanges(*h),
                None => Seq::empty(),
            },
            in_news_channel,
            author@,
            last_news@,
        ),
        exchanges(r).len() <= HISTORY_LIMIT + 1,
{
    let mut history = match stored {
        Some(h) => exchanges_clone(h),
        None => exchanges_new(),
    };
    let n = exchanges_len(&history);
    if n > HISTORY_LIMIT {
        exchanges_drain_front(&mut history, n - HISTORY_LIMIT);
    }
    if in_news_channel {
        exchanges_push(
            &mut history,
            (String::from_str(author), String::from_str(NEWS_REQUEST), String::from_str(last_news)),
        );
    }
    history
}

// ---------------------------------------------------------------------------
// What was overheard across channels
// ---------------------------------------------------------------------------

/// The messages overheard across channels, oldest first.
#[verifier::external_body]
pub struct GlobalConversationHistory {
    messages: SmallVec<[(String, String); 16]>,
}

/// What the overheard history holds: (author, message), oldest first.
pub uninterp spec fn overheard(h: GlobalConversationHistory) -> Seq<(Seq<char>, Seq<char>)>;

/// `SmallVec::new`: nothing overheard yet.
#[verifier::external_body]
fn overheard_new() -> (r: GlobalConversationHistory)
    ensures
        overheard(r) == Seq::<(Seq<char>, Seq<char>)>::empty(),
{
    GlobalConversationHistory { messages: SmallVec::new() }
}

/// `SmallVec::len`: the number of messages held.
#[verifier::external_body]
fn overheard_len(h: &GlobalConversationHistory) -> (r: usize)
    ensures
        r == overheard(*h).len(),
{
    h.messages.len()
}

/// `SmallVec::push`: appends one message.
#[verifier::external_body]
fn overheard_push(h: &mut GlobalConversationHistory, m: (String, String))
    ensures
        overheard(*final(h)) == overheard(*old(h)).push((m.0@, m.1@)),
{
    h.messages.push(m);
}

/// `SmallVec::drain` over `0..n`, its iterator dropped at once: the first
/// `n` messages leave.
#[verifier::external_body]
fn overheard_drain_front(h: &mut GlobalConversationHistory, n: usize)
    requires
        n <= overheard(*old(h)).len(),
    ensures
        overheard(*final(h)) == overheard(*old(h)).skip(n as int),
{
    h.messages.drain(0..n);
}

/// `SmallVec::as_slice`: the messages in order.
#[verifier::external_body]
fn overheard_slice(h: &GlobalConversationHistory) -> (r: &[(String, String)])
    ensures
        pair_views(r@) == overheard(*h),
{
    h.messages.as_slice()
}

impl GlobalConversationHistory {
    /// Nothing overheard yet.
    pub fn new() -> (r: Self)
        ensures
            overheard(r) == Seq::<(Seq<char>, Seq<char>)>::empty(),
    {
        overheard_new()
    }

    /// The number of messages held.
    pub fn len(&self) -> (r: usize)
        ensures
            r == overheard(*self).len(),
    {
        overheard_len(self)
    }

    /// The messages, oldest first, as (author, message).
    pub fn entries(&self) -> (r: &[(String, String)])
        ensures
            pair_views(r@) == overheard(*self),
    {
        overheard_slice(self)
    }
}

/// Remembers a message overheard in a channel: keeps the last
/// `GLOBAL_HISTORY_LIMIT` messages, then adds this one after them.
pub fn update_global_state(history: &mut GlobalConversationHistory, text: String, author: String)
    ensures
        overheard(*final(history)) == keep_last(overheard(*old(history)), GLOBAL_HISTORY_LIMIT as nat).push(
            (author@, text@),
        ),
        overheard(*final(history)).len() <= GLOBAL_HISTORY_LIMIT + 1,
        overheard(*final(history)).last() == (author@, text@),
{
    let n = overheard_len(history);
    if n > GLOBAL_HISTORY_LIMIT {
        overheard_drain_front(history, n - GLOBAL_HISTORY_LIMIT);
    }
    overheard_push(history, (author, text));
}

// ---------------------------------------------------------------------------
// Process-wide state
// ---------------------------------------------------------------------------

/// What the bot remembers between requests besides the histories.
pub struct GlobalState {
    /// The summary of the last news posted.
    pub last_news: String,
}

impl GlobalState {
    /// No news posted yet.
    pub fn new() -> (r: Self)
        ensures
            r.last_news@ == Seq::<char>::empty(),
    {
        GlobalState { last_news: String::new() }
    }
}

} // verus!
