//! The bot's configuration.
use vstd::prelude::*;

verus! {

/// Everything the bot is configured with.
pub struct IOptions {
    /// The Discord bot token.
    pub discord: String,
    /// The model that answers.
    pub model: String,
    /// The name the bot speaks under in transcripts.
    pub bot_name: String,
    /// The system prompt sent with every request.
    pub system_prompt: String,
    /// The text at the foot of every embed.
    pub footer_text: String,
    /// The guilds the bot stays in.
    pub allowed_guilds: Vec<u64>,
    /// The channels whose messages the bot ignores.
    pub restricted_channels: Vec<u64>,
    /// The bot owner's user id.
    pub owner: u64,
    /// The bot's own user id.
    pub bot: u64,
    /// The channel news is posted to.
    pub twitter_channel_id: u64,
    /// The prompt that asks for a news title.
    pub title_mod_msg: String,
    /// The prompt that asks for a news description.
    pub desc_mod_msg: String,
}

fn contains_id(ids: &Vec<u64>, id: u64) -> (b: bool)
    ensures
        b == ids@.contains(id),
{
    let mut i: usize = 0;
    while i < ids.len()
        invariant
            i <= ids@.len(),
            forall|k: int| 0 <= k < i ==> ids@[k] != id,
        decreases ids@.len() - i,
    {
        if ids[i] == id {
            return true;
        }
        i = i + 1;
    }
    false
}

impl IOptions {
    /// Messages in this channel are ignored.
    pub fn is_restricted(&self, channel: u64) -> (b: bool)
        ensures
            b == self.restricted_channels@.contains(channel),
    {
        contains_id(&self.restricted_channels, channel)
    }

    /// The bot may stay in this guild.
    pub fn guild_allowed(&self, guild: u64) -> (b: bool)
        ensures
            b == self.allowed_guilds@.contains(guild),
    {
        contains_id(&self.allowed_guilds, guild)
    }
}

} // verus!
