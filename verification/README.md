# Rarity

A Discord companion bot that chats through a local Ollama model, answers
from a YAML knowledge base (retrieval-augmented generation), posts news
from RSS feeds and draws images on request.

## Layout

- `src/` — the verified library (Verus). Every function carries a
  contract over a mathematical model of its data:
  - `text` — character classes, UTF-8/UTF-16 lengths, trimming, searching.
  - `discord` — sanitising, measuring and truncating embed texts; the
    embed checks against Discord's limits.
  - `rag`, `operations`, `generation` — the knowledge base, the call syntax
    the model uses to query it, the retrieval limits and the prompts of a
    retrieval-augmented answer.
  - `prompt` — token estimates, fitting prompts into the context window,
    model choice, chat transcripts and the restart-and-retry policy.
  - `news`, `feed` — feed decoding, items from feed entries, what is new,
    how a post is assembled and split over embeds.
  - `state`, `handler`, `options`, `proxy`, `imagine`, `presence`,
    `status` — conversation memory, message routing, configuration,
    proxy settings, the image command and status texts.
- `tests/` — tests of the library on concrete values.
- `app/` — the bot program: configuration and knowledge-base files, the
  Discord gateway and HTTP calls, Ollama and feed requests, and the status
  line, all around the library's decisions.

Laws the library proves are public proof functions named `law_*`.

## Behaviour worth knowing

- The feed parser aborts when converting a play time of the media or
  podcast extension of RSS (`time`, `start`, `end`, `duration`) whose
  digits are not ASCII or are too many. A feed is refused before it
  reaches the parser only when it declares such an extension and one of
  those fields, as written, is not a plain play time (ASCII, no character
  references, no run of more than fifteen digits), or when it holds NUL or
  escape characters together with an encoding declaration that could make
  the parser read it otherwise than it is written;
  `RssFetcher::parse_safe` tells which feeds are read. Ordinary podcast and
  media feeds are read as they are.
- A knowledge base that names a term, category or alias twice is refused
  as malformed.
- Proxy settings prefer the scheme-specific variables (`HTTPS_PROXY`,
  `HTTP_PROXY`) over the catch-all `ALL_PROXY`.
