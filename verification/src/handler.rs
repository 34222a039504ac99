//! What the bot does with an incoming message or guild.
use vstd::prelude::*;
use crate::options::IOptions;
use crate::text::{
    is_ws, trim, trim_start, occurs_at, contains_seq, starts_with, chars_of, string_of,
    occurs_at_exec, push_decimal, decimal, trim_chars, is_whitespace_char,
};

verus! {

/// What a message asking for help is answered with.
pub const HELP_TEXT: &'static str = "try to chat with me";

/// How the bot is mentioned: `<@id>`.
pub open spec fn mention_of(bot: u64) -> Seq<char> {
    "<@"@ + decimal(bot as nat) + ">"@
}

/// The mention of the bot with user id `bot`.
pub fn get_bot_string(bot: u64) -> (r: String)
    ensures
        r@ == mention_of(bot),
{
    let mut out: Vec<char> = Vec::new();
    out.push('<');
    out.push('@');
    push_decimal(&mut out, bot);
    out.push('>');
    proof {
        reveal_strlit("<@");
        reveal_strlit(">");
    }
    assert(out@ =~= mention_of(bot));
    string_of(out.as_slice())
}

/// `h` with every occurrence of `n` taken out, matched left to right
/// without overlap, as `str::replace` with an empty replacement does.
pub open spec fn remove_all(h: Seq<char>, n: Seq<char>) -> Seq<char>
    decreases h.len(),
{
    if n.len() == 0 || h.len() == 0 {
        h
    } else if occurs_at(h, n, 0) {
        remove_all(h.skip(n.len() as int), n)
    } else {
        seq![h[0]] + remove_all(h.skip(1), n)
    }
}

fn remove_all_chars(h: &[char], n: &[char]) -> (r: Vec<char>)
    requires
        n@.len() > 0,
    ensures
        r@ == remove_all(h@, n@),
{
    let mut out: Vec<char> = Vec::new();
    let mut i: usize = 0;
    assert(out@ + remove_all(h@.skip(0), n@) =~= remove_all(h@, n@)) by {
        assert(h@.skip(0) =~= h@);
    }
    while i < h.len()
        invariant
            i <= h@.len(),
            n@.len() > 0,
            out@ + remove_all(h@.skip(i as int), n@) == remove_all(h@, n@),
        decreases h@.len() - i,
    {
        let rest = Ghost(h@.skip(i as int));
        if occurs_at_exec(h, n, i) {
            assert(occurs_at(rest@, n@, 0)) by {
                assert(rest@.subrange(0, n@.len() as int) =~= h@.subrange(i as int, i + n@.len()));
            }
            assert(rest@.skip(n@.len() as int) =~= h@.skip(i + n@.len()));
            i = i + n.len();
        } else {
            assert(!occurs_at(rest@, n@, 0)) by {
                if occurs_at(rest@, n@, 0) {
                    assert(rest@.subrange(0, n@.len() as int) =~= h@.subrange(i as int, i + n@.len()));
                }
            }
            assert(rest@.skip(1) =~= h@.skip(i + 1));
            assert(out@.push(h@[i as int]) + remove_all(h@.skip(i + 1), n@) =~= out@ + (seq![rest@[0]]
                + remove_all(rest@.skip(1), n@)));
            out.push(h[i]);
            i = i + 1;
        }
    }
    assert(h@.skip(i as int) =~= Seq::<char>::empty());
    assert(out@ + Seq::<char>::empty() =~= out@);
    out
}

/// What a message mentioning the bot is left with once every mention is
/// taken out and the ends are trimmed, and whether it began with the
/// mention; `None` when it does not mention the bot.
pub open spec fn mention_in(text: Seq<char>, bot: u64) -> Option<(Seq<char>, bool)> {
    let m = mention_of(bot);
    if contains_seq(text, m) {
        Some((trim(remove_all(text, m)), starts_with(text, m)))
    } else {
        None
    }
}

pub fn contains_mention(text: &str, bot: u64) -> (r: Option<(String, bool)>)
    ensures
        match r {
            Some((t, first)) => mention_in(text@, bot) == Some((t@, first)),
            None => mention_in(text@, bot) is None,
        },
{
    let mention = get_bot_string(bot);
    let h = chars_of(text);
    let n = chars_of(mention.as_str());
    proof {
        reveal_strlit("<@");
        reveal_strlit(">");
        assert(n@.len() > 0);
    }
    let mut i: usize = 0;
    while i < h.len()
        invariant
            i <= h@.len(),
            h@ == text@,
            n@ == mention_of(bot),
            n@.len() > 0,
            forall|k: int| 0 <= k < i ==> !occurs_at(h@, n@, k),
        decreases h@.len() - i,
    {
        if occurs_at_exec(h.as_slice(), n.as_slice(), i) {
            let removed = remove_all_chars(h.as_slice(), n.as_slice());
            let cleaned = trim_chars(removed.as_slice());
            assert(contains_seq(h@, n@));
            assert(starts_with(h@, n@) == (i == 0));
            return Some((string_of(cleaned.as_slice()), i == 0));
        }
        i = i + 1;
    }
    assert forall|k: int| !(#[trigger] occurs_at(h@, n@, k)) by {
        if 0 <= k && k <= h@.len() && occurs_at(h@, n@, k) {
            assert(k == i || k < i);
        }
    }
    None
}

/// The maximal run of non-whitespace characters that `s` begins with.
pub open spec fn word_prefix(s: Seq<char>) -> Seq<char>
    decreases s.len(),
{
    if s.len() > 0 && !is_ws(s[0]) {
        seq![s[0]] + word_prefix(s.drop_first())
    } else {
        Seq::<char>::empty()
    }
}

/// The first whitespace-separated word of `s`, as
/// `str::split_whitespace().next()` yields it.
pub open spec fn first_word(s: Seq<char>) -> Option<Seq<char>> {
    let t = trim_start(s);
    if t.len() == 0 {
        None
    } else {
        Some(word_prefix(t))
    }
}

fn first_word_chars(s: &[char]) -> (r: Option<Vec<char>>)
    ensures
        match r {
            Some(w) => first_word(s@) == Some(w@),
            None => first_word(s@) is None,
        },
{
    let mut i: usize = 0;
    assert(s@.skip(0) =~= s@);
    while i < s.len() && is_whitespace_char(s[i])
        invariant
            i <= s@.len(),
            trim_start(s@.skip(i as int)) == trim_start(s@),
        decreases s@.len() - i,
    {
        assert(s@.skip(i as int).drop_first() =~= s@.skip(i + 1));
        i = i + 1;
    }
    let ghost t = s@.skip(i as int);
    if i == s.len() {
        assert(t =~= Seq::<char>::empty());
        return None;
    }
    assert(trim_start(t) == t);
    let start = i;
    let mut w: Vec<char> = Vec::new();
    while i < s.len() && !is_whitespace_char(s[i])
        invariant
            start <= i <= s@.len(),
            t == s@.skip(start as int),
            w@ + word_prefix(s@.skip(i as int)) == word_prefix(t),
        decreases s@.len() - i,
    {
        assert(s@.skip(i as int).drop_first() =~= s@.skip(i + 1));
        assert(w@.push(s@[i as int]) + word_prefix(s@.skip(i + 1)) =~= w@ + (seq![s@.skip(
            i as int,
        )[0]] + word_prefix(s@.skip(i as int).drop_first())));
        w.push(s[i]);
        i = i + 1;
    }
    assert(word_prefix(s@.skip(i as int)) =~= Seq::<char>::empty());
    assert(w@ + Seq::<char>::empty() =~= w@);
    Some(w)
}

/// What the bot does with a message.
#[derive(Debug, PartialEq, Eq)]
pub enum Route {
    /// Nothing.
    Ignore,
    /// Answers with `HELP_TEXT`.
    Help,
    /// Replies to this text, the message with its mentions taken out.
    Reply(String),
    /// Joins in on the message unasked.
    Speak,
    /// Only remembers the message among those overheard.
    Remember,
}

/// The spec form of `Route`, over views.
pub enum RouteView {
    Ignore,
    Help,
    Reply(Seq<char>),
    Speak,
    Remember,
}

impl Route {
    pub open spec fn view(&self) -> RouteView {
        match self {
            Route::Ignore => RouteView::Ignore,
            Route::Help => RouteView::Help,
            Route::Reply(t) => RouteView::Reply(t@),
            Route::Speak => RouteView::Speak,
            Route::Remember => RouteView::Remember,
        }
    }
}

/// Where a message goes. A message from a bot, in a restricted channel, or
/// with no words is ignored; one whose first word is `~help` gets help.
/// A message that mentions the bot is replied to, without its mentions,
/// unless it begins with the mention and says no more than `help`, which
/// gets help. Any other message is joined in on when `lucky` (the one in
/// fifty draw came out) and its author is not the owner, and only
/// remembered otherwise.
pub open spec fn routed(
    options: &IOptions,
    author_is_bot: bool,
    author: u64,
    channel: u64,
    content: Seq<char>,
    lucky: bool,
) -> RouteView {
    if author_is_bot || options.restricted_channels@.contains(channel) {
        RouteView::Ignore
    } else {
        match first_word(content) {
            None => RouteView::Ignore,
            Some(w) => if w == "~help"@ {
                RouteView::Help
            } else {
                match mention_in(content, options.bot) {
                    Some((t, first)) => if first && t == "help"@ {
                        RouteView::Help
                    } else {
                        RouteView::Reply(t)
                    },
                    None => if lucky && author != options.owner {
                        RouteView::Speak
                    } else {
                        RouteView::Remember
                    },
                }
            },
        }
    }
}

fn chars_equal(a: &[char], b: &str) -> (r: bool)
    ensures
        r == (a@ == b@),
{
    let bv = chars_of(b);
    if a.len() != bv.len() {
        return false;
    }
    let mut i: usize = 0;
    while i < a.len()
        invariant
            i <= a@.len(),
            a@.len() == bv@.len(),
            bv@ == b@,
            forall|k: int| 0 <= k < i ==> a@[k] == bv@[k],
        decreases a@.len() - i,
    {
        if a[i] != bv[i] {
            return false;
        }
        i = i + 1;
    }
    assert(a@ =~= bv@);
    true
}

/// Decides what to do with a message; `lucky` is the outcome of the one in
/// fifty draw made for it.
pub fn route_message(
    options: &IOptions,
    author_is_bot: bool,
    author: u64,
    channel: u64,
    content: &str,
    lucky: bool,
) -> (r: Route)
    ensures
        r.view() == routed(options, author_is_bot, author, channel, content@, lucky),
{
    if author_is_bot || options.is_restricted(channel) {
        return Route::Ignore;
    }
    let cs = chars_of(content);
    match first_word_chars(cs.as_slice()) {
        None => Route::Ignore,
        Some(w) => {
            if chars_equal(w.as_slice(), "~help") {
                Route::Help
            } else {
                match contains_mention(content, options.bot) {
                    Some((t, first)) => {
                        let tc = chars_of(t.as_str());
                        if first && chars_equal(tc.as_slice(), "help") {
                            Route::Help
                        } else {
                            Route::Reply(t)
                        }
                    },
                    None => {
                        if lucky && author != options.owner {
                            Route::Speak
                        } else {
                            Route::Remember
                        }
                    },
                }
            }
        },
    }
}

/// The bot leaves a guild it joins unless the guild is allowed.
pub fn should_leave_guild(options: &IOptions, guild: u64) -> (b: bool)
    ensures
        b == !options.allowed_guilds@.contains(guild),
{
    !options.guild_allowed(guild)
}

} // verus!
