use rarity::feed::{newest_first_order, FeedEntry, RssFetcher, RssSubscriber};
use rarity::news::{split_into_chunks, DiscordPoster, FeedItem};

fn item(title: &str, link: &str, description: &str, ts: u64) -> FeedItem {
    FeedItem {
        title: title.to_string(),
        link: link.to_string(),
        description: description.to_string(),
        published_timestamp: ts,
    }
}

fn links(items: &[FeedItem]) -> Vec<String> {
    items.iter().map(|i| i.link.clone()).collect()
}

const FEED: &str = "<?xml version=\"1.0\" encoding=\"UTF-8\"?>\
<rss version=\"2.0\"><channel><title>T</title><link>http://example.org</link><description>d</description>\
<item><title>First news</title><link>http://example.org/1</link><description>Desc one</description><pubDate>Tue, 10 Jun 2003 04:00:00 GMT</pubDate></item>\
<item><title>Second</title><link>http://example.org/2</link></item>\
</channel></rss>";

#[test]
fn standard_items_read_each_entry() {
    let items = RssFetcher::standard_items(FEED).ok().unwrap();
    assert_eq!(items.len(), 2);
    assert_eq!(items[0].title, "First news");
    assert_eq!(items[0].link, "http://example.org/1");
    assert_eq!(items[0].description, "Desc one");
    assert_eq!(items[0].published_timestamp, 1_055_217_600);
    assert_eq!(items[1].description, "No description");
    assert_eq!(items[1].published_timestamp, 0);
}

#[test]
fn bing_items_date_undated_entries_now() {
    let items = RssFetcher::bing_items(FEED, 42).ok().unwrap();
    assert_eq!(items.len(), 2);
    assert_eq!(items[0].published_timestamp, 1_055_217_600);
    assert_eq!(items[1].published_timestamp, 42);
    assert_eq!(items[1].link, "http://example.org/2");
}

#[test]
fn feeds_that_do_not_parse_are_errors() {
    let e = RssFetcher::standard_items("not a feed").err().unwrap();
    assert!(e.starts_with("Failed to parse standard feed: "));
    let e = RssFetcher::bing_items("not a feed", 0).err().unwrap();
    assert!(e.starts_with("Failed to parse Bing feed: "));
}

const PODCAST: &str = "<?xml version=\"1.0\"?>\
<rss version=\"2.0\" xmlns:itunes=\"http://www.itunes.com/dtds/podcast-1.0.dtd\"><channel><title>P</title>\
<item><title>Episode</title><link>http://example.org/e</link><itunes:duration>12:05:35</itunes:duration></item>\
</channel></rss>";

const PODCAST_WITHOUT_DURATION: &str = "<?xml version=\"1.0\"?>\
<rss version=\"2.0\" xmlns:itunes=\"http://www.itunes.com/dtds/podcast-1.0.dtd\"><channel><title>P</title>\
<item><title>Episode</title><link>http://example.org/e</link><itunes:author>A</itunes:author></item>\
</channel></rss>";

const MEDIA: &str = "<?xml version=\"1.0\"?>\
<rss version=\"2.0\" xmlns:media=\"http://search.yahoo.com/mrss/\"><channel><title>M</title>\
<item><title>Clip</title><link>http://example.org/c</link>\
<media:thumbnail url=\"http://example.org/t.png\" time = \"99999999999999999999999\"/></item>\
</channel></rss>";

const PODCAST_LONG_DURATION: &str = "<?xml version=\"1.0\"?>\
<rss version=\"2.0\" xmlns:itunes=\"http://www.itunes.com/dtds/podcast-1.0.dtd\"><channel><title>P</title>\
<item><title>Episode</title><itunes:duration>9999999999999999:00:00</itunes:duration></item>\
</channel></rss>";

#[test]
fn feeds_with_plain_play_times_are_read() {
    assert!(RssFetcher::parse_safe(PODCAST));
    let items = RssFetcher::standard_items(PODCAST).ok().unwrap();
    assert_eq!(items.len(), 1);
    assert_eq!(items[0].title, "Episode");
    assert_eq!(items[0].link, "http://example.org/e");
    let items = RssFetcher::bing_items(PODCAST, 7).ok().unwrap();
    assert_eq!(items.len(), 1);
    let short = PODCAST.replace("12:05:35", "12:34");
    assert_eq!(RssFetcher::standard_items(&short).ok().unwrap().len(), 1);
    let media = MEDIA.replace("99999999999999999999999", "12:05:35.5");
    assert!(RssFetcher::parse_safe(&media));
    assert_eq!(RssFetcher::standard_items(&media).ok().unwrap().len(), 1);
}

#[test]
fn feeds_with_play_times_that_cannot_be_converted_are_refused() {
    assert!(!RssFetcher::parse_safe(MEDIA));
    assert!(!RssFetcher::parse_safe(PODCAST_LONG_DURATION));
    assert_eq!(
        RssFetcher::standard_items(PODCAST_LONG_DURATION).err().unwrap(),
        "Failed to parse standard feed: a play-time field cannot be converted"
    );
    assert_eq!(
        RssFetcher::bing_items(MEDIA, 0).err().unwrap(),
        "Failed to parse Bing feed: a play-time field cannot be converted"
    );
    // Fifteen digits of hours are still counted; sixteen are not.
    assert!(RssFetcher::parse_safe(&PODCAST_LONG_DURATION.replace("9999999999999999:", "999999999999999:")));
    // Non-ASCII digits, references and text continued past a comment are not read as written.
    assert!(!RssFetcher::parse_safe(&PODCAST.replace("12:05:35", "\u{0661}\u{0662}")));
    assert!(!RssFetcher::parse_safe(&PODCAST.replace("12:05:35", "1&#50;")));
    assert!(!RssFetcher::parse_safe(&PODCAST.replace("12:05:35", "12<!-- x -->34")));
}

#[test]
fn feeds_without_play_times_are_read() {
    assert!(RssFetcher::parse_safe(FEED));
    assert!(RssFetcher::parse_safe(PODCAST_WITHOUT_DURATION));
    assert!(RssFetcher::parse_safe("<item><duration>99999999999999999999</duration></item>"));
    assert!(RssFetcher::parse_safe("a\0b"));
    assert!(RssFetcher::parse_safe("a\u{1b}b"));
    let items = RssFetcher::standard_items(PODCAST_WITHOUT_DURATION).ok().unwrap();
    assert_eq!(items.len(), 1);
    assert_eq!(items[0].title, "Episode");
    assert_eq!(items[0].link, "http://example.org/e");
}

#[test]
fn markup_the_parser_may_decode_otherwise_is_refused() {
    assert!(!RssFetcher::parse_safe("<?xml version=\"1.0\" encoding=\"UTF-16\"?>\0"));
    assert!(!RssFetcher::parse_safe("<\0?\0x\0m\0l\0"));
    assert!(!RssFetcher::parse_safe("<?xml version=\"1.0\" encoding=\"ISO-2022-JP\"?>\u{1b}$B"));
    assert!(RssFetcher::parse_safe("<?xml version=\"1.0\" encoding=\"ISO-2022-JP\"?><rss/>"));
}

#[test]
fn only_whole_attribute_names_count_as_play_times() {
    let ns = "xmlns:media=\"http://search.yahoo.com/mrss/\" ";
    let long = "\"99999999999999999\"";
    assert!(RssFetcher::parse_safe(&format!("{}runtime={} endless={} started", ns, long, long)));
    assert!(!RssFetcher::parse_safe(&format!("{}a:end={}", ns, long)));
    assert!(!RssFetcher::parse_safe(&format!("{}<x start\n={}/>", ns, long)));
    assert!(!RssFetcher::parse_safe(&format!("{}<x time=1/>", ns)));
    assert!(RssFetcher::parse_safe(&format!("{}<x start = '1:00:00' end=\"90.5\" time=\"3\"/>", ns)));
}

#[test]
fn declared_encoding_reads_the_xml_declaration() {
    assert_eq!(
        RssFetcher::declared_encoding(b"<?xml version=\"1.0\" encoding=\"Windows-1251\"?><rss/>"),
        Some("windows-1251".to_string())
    );
    assert_eq!(RssFetcher::declared_encoding(b"<?xml version='1.0' encoding='CP1251'?>"), Some("cp1251".to_string()));
    assert_eq!(RssFetcher::declared_encoding(b"<?xml version=\"1.0\"?><rss/>"), None);
    assert_eq!(RssFetcher::declared_encoding(b"<rss encoding=\"utf-8\"/>"), None);
}

#[test]
fn decode_feed_uses_the_declared_encoding() {
    let mut bytes = b"<?xml version=\"1.0\" encoding=\"windows-1251\"?>".to_vec();
    bytes.extend_from_slice(&[0xCF, 0xF0, 0xE8]);
    assert_eq!(RssFetcher::decode_feed(&bytes), "<?xml version=\"1.0\" encoding=\"windows-1251\"?>При");
    assert_eq!(RssFetcher::decode_feed("Привет".as_bytes()), "Привет");
    assert_eq!(RssFetcher::decode_feed(&[0xCF, 0xF0, 0xE8]), "При");
}

#[test]
fn gather_joins_the_sources_that_answered() {
    let fetched = vec![
        Some(vec![item("a", "l1", "d", 1)]),
        None,
        Some(vec![item("b", "l2", "d", 2), item("c", "l3", "d", 3)]),
    ];
    let all = RssFetcher::gather(&fetched).ok().unwrap();
    assert_eq!(links(&all), vec!["l1", "l2", "l3"]);
    assert_eq!(RssFetcher::gather(&[None, None]).err(), Some("All RSS instances failed".to_string()));
    assert_eq!(RssFetcher::gather(&[]).err(), Some("All RSS instances failed".to_string()));
}

#[test]
fn status_errors_name_the_source_kind() {
    assert_eq!(RssFetcher::status_error(404, false), "HTTP 404 Not Found");
    assert_eq!(RssFetcher::status_error(503, true), "Bing HTTP 503 Service Unavailable");
}

#[test]
fn new_items_are_recent_and_unseen() {
    let current = vec![item("a", "l1", "d", 10), item("b", "l2", "d", 200), item("c", "l3", "d", 300)];
    let last = vec![item("x", "l2", "d", 0)];
    assert_eq!(links(&RssSubscriber::new_items(&current, &last, 100)), vec!["l3"]);
    assert_eq!(links(&RssSubscriber::new_items(&current, &[], 5)), vec!["l1", "l2", "l3"]);
}

#[test]
fn newest_first_order_is_a_stable_sort() {
    let items = vec![item("a", "l0", "d", 1), item("b", "l1", "d", 3), item("c", "l2", "d", 3), item("d", "l3", "d", 2)];
    assert_eq!(newest_first_order(&items), vec![1, 2, 3, 0]);
}

#[test]
fn startup_items_add_a_search_engine_item() {
    let items = vec![
        item("a", "https://www.bing.com/news/1", "d", 1),
        item("b", "l1", "d", 5),
        item("c", "l2", "d", 4),
        item("d", "l3", "d", 3),
        item("e", "l4", "d", 2),
        item("f", "https://bing.com/2", "d", 0),
    ];
    assert_eq!(
        links(&RssSubscriber::startup_items(&items)),
        vec!["l1", "l2", "l3", "l4", "https://www.bing.com/news/1"]
    );
    let few = vec![item("a", "https://bing.com/x", "d", 9), item("b", "l1", "d", 1)];
    assert_eq!(links(&RssSubscriber::startup_items(&few)), vec!["https://bing.com/x", "l1"]);
    assert!(RssSubscriber::startup_items(&[]).is_empty());
}

#[test]
fn select_items_takes_five_with_content() {
    let items = vec![
        item("a", "l0", "d", 1),
        item(" ", "l1", "d", 1),
        item("b", "l2", "\n", 1),
        item("c", "l3", "d", 1),
        item("d", "l4", "d", 1),
        item("e", "l5", "d", 1),
        item("f", "l6", "d", 1),
        item("g", "l7", "d", 1),
    ];
    let selected = DiscordPoster::select_items(&items);
    let selected_links: Vec<&str> = selected.iter().map(|i| i.link.as_str()).collect();
    assert_eq!(selected_links, vec!["l0", "l3", "l4", "l5", "l6"]);
}

#[test]
fn combined_texts_and_latest_time() {
    let a = item(" First\u{200B} ", "l0", "One", 7);
    let b = item("Second", "l1", "Two", 9);
    let items = vec![&a, &b];
    assert_eq!(DiscordPoster::combined_titles(&items), "First, Second");
    assert_eq!(DiscordPoster::combined_descriptions(&items), "One. Two");
    assert_eq!(DiscordPoster::latest_timestamp(&items), Some(9));
    let z = item("z", "l", "d", 0);
    assert_eq!(DiscordPoster::latest_timestamp(&[&z]), None);
    assert_eq!(DiscordPoster::latest_timestamp(&[]), None);
}

#[test]
fn finish_title_unquotes_and_cuts() {
    assert_eq!(DiscordPoster::finish_title("\"Great news\""), "Great news");
    let long = "слово ".repeat(100);
    let title = DiscordPoster::finish_title(&long);
    assert!(title.chars().count() <= 256);
    assert!(title.ends_with("..."));
}

#[test]
fn split_into_chunks_breaks_at_spaces() {
    let text: Vec<char> = "aaaa bbbb cccc".chars().collect();
    let chunks: Vec<String> = split_into_chunks(&text, 7).iter().map(|c| c.iter().collect()).collect();
    assert_eq!(chunks, vec!["aaaa...", "bbbb...", "cccc"]);
    let none: Vec<char> = Vec::new();
    assert!(split_into_chunks(&none, 7).is_empty());
}

#[test]
fn plan_embeds_splits_long_descriptions() {
    assert_eq!(
        DiscordPoster::plan_embeds("T", "short"),
        vec![("T".to_string(), "short".to_string())]
    );
    let description = "a ".repeat(2500);
    let plan = DiscordPoster::plan_embeds("T", &description);
    assert_eq!(plan.len(), 2);
    assert_eq!(plan[0].0, "T");
    assert_eq!(plan[0].1.chars().count(), 3602);
    assert!(plan[0].1.ends_with(" a..."));
    assert_eq!(plan[1].0, "T (часть 2)");
    assert_eq!(plan[1].1.chars().count(), 1400);
}

fn entry(title: Option<&str>, links: &[&str], body: Option<&str>, summary: Option<&str>, published: Option<i64>) -> FeedEntry {
    FeedEntry {
        published,
        title: title.map(|t| t.to_string()),
        links: links.iter().map(|l| l.to_string()).collect(),
        content_body: body.map(|b| b.to_string()),
        summary: summary.map(|s| s.to_string()),
    }
}

#[test]
fn entries_become_items() {
    let entries = vec![
        entry(Some(" Title\u{200B} "), &["", "http://b"], Some("Body"), Some("Summary"), Some(5)),
        entry(None, &[], None, None, None),
    ];
    let standard = RssFetcher::standard_entry_items(&entries);
    assert_eq!(standard[0].title, "Title");
    assert_eq!(standard[0].link, "");
    assert_eq!(standard[0].description, "Body");
    assert_eq!(standard[0].published_timestamp, 5);
    assert_eq!(
        (standard[1].title.as_str(), standard[1].link.as_str(), standard[1].description.as_str(), standard[1].published_timestamp),
        ("No title", "No link", "No description", 0)
    );
    let bing = RssFetcher::bing_entry_items(&entries, 77);
    assert_eq!(bing[0].link, "http://b");
    assert_eq!(bing[0].description, "Summary");
    assert_eq!(bing[1].published_timestamp, 77);
    let many: Vec<FeedEntry> = (0..11).map(|i| entry(Some("t"), &["l"], None, None, Some(i))).collect();
    assert_eq!(RssFetcher::bing_entry_items(&many, 0).len(), 10);
    assert_eq!(RssFetcher::standard_entry_items(&many).len(), 11);
}

#[test]
fn encoding_in_header_reads_the_declaration() {
    assert_eq!(
        RssFetcher::encoding_in_header("<?xml version=\"1.0\" encoding=\"ISO-8859-1\"?>"),
        Some("iso-8859-1".to_string())
    );
    assert_eq!(RssFetcher::encoding_in_header("<?xml version=\"1.0\"?>"), None);
    assert!(RssFetcher::reads_as_windows_1251("latin-1"));
    assert!(RssFetcher::reads_as_windows_1251("cp1251"));
    assert!(!RssFetcher::reads_as_windows_1251("utf-8"));
}

#[test]
fn bing_sources_are_named_bing() {
    assert!(RssFetcher::is_bing_source("bing"));
    assert!(!RssFetcher::is_bing_source("Bing"));
    assert!(!RssFetcher::is_bing_source("standard"));
}
