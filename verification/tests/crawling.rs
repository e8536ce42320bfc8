use wikipedia_search_engine::crawler::{Content, CrawlError, CrawlEvent, Crawler, FetchOutcome,
    POLITENESS_INTERVAL_SECS};
use wikipedia_search_engine::frontier::Frontier;

fn strings(items: &[&str]) -> Vec<String> {
    items.iter().map(|s| s.to_string()).collect()
}

fn page(link: &str) -> String {
    format!("https://api.wikimedia.org/core/v1/wikipedia/en/page/{}/html", link)
}

fn drain(crawler: &mut Crawler) -> Vec<String> {
    let mut urls = Vec::new();
    while let Ok(url) = crawler.next_url() {
        urls.push(url);
    }
    urls
}

#[test]
fn follow_up_url_uses_the_template() {
    assert_eq!(
        Crawler::follow_up("Web_crawler"),
        "https://api.wikimedia.org/core/v1/wikipedia/en/page/Web_crawler/html"
    );
    assert_eq!(POLITENESS_INTERVAL_SECS, 5);
}

#[test]
fn starting_urls_are_fetched_in_order() {
    let mut crawler = Crawler::new(strings(&["u1", "u2", "u1", "u3"]));
    assert_eq!(crawler.pending(), 3);
    assert!(crawler.is_enqueued("u1"));
    assert!(!crawler.is_enqueued("u4"));
    assert_eq!(crawler.next_url(), Ok("u1".to_string()));
    assert_eq!(crawler.next_url(), Ok("u2".to_string()));
    assert_eq!(crawler.next_url(), Ok("u3".to_string()));
    assert_eq!(crawler.next_url(), Err(CrawlError::FrontierExhausted));
    assert_eq!(crawler.next_url(), Err(CrawlError::FrontierExhausted));
}

#[test]
fn failed_fetch_is_retried_from_the_back() {
    let mut crawler = Crawler::new(strings(&["u1", "u2"]));
    let url = crawler.next_url().unwrap();
    assert_eq!(crawler.handle_fetch(url, FetchOutcome::Failed), Ok(CrawlEvent::Retry));
    assert_eq!(drain(&mut crawler), strings(&["u2", "u1"]));
}

#[test]
fn server_error_is_retried() {
    for status in [500, 503, 599, 301, 100, 199, 300, 399] {
        let mut crawler = Crawler::new(strings(&["u1", "u2"]));
        let url = crawler.next_url().unwrap();
        let outcome = FetchOutcome::Response { status, body: Some("<p>text</p>".to_string()) };
        assert_eq!(crawler.handle_fetch(url, outcome), Ok(CrawlEvent::Retry));
        assert_eq!(drain(&mut crawler), strings(&["u2", "u1"]));
    }
}

#[test]
fn client_error_drops_the_url() {
    for status in [400, 404, 429, 499] {
        let mut crawler = Crawler::new(strings(&["u1", "u2"]));
        let url = crawler.next_url().unwrap();
        let outcome = FetchOutcome::Response { status, body: Some("<p>text</p>".to_string()) };
        assert_eq!(crawler.handle_fetch(url, outcome), Ok(CrawlEvent::Dropped));
        assert_eq!(drain(&mut crawler), strings(&["u2"]));
    }
}

#[test]
fn malformed_body_drops_the_url() {
    let mut crawler = Crawler::new(strings(&["u1", "u2"]));
    let url = crawler.next_url().unwrap();
    let outcome = FetchOutcome::Response { status: 200, body: None };
    assert_eq!(crawler.handle_fetch(url, outcome), Ok(CrawlEvent::Dropped));
    assert_eq!(drain(&mut crawler), strings(&["u2"]));
    let mut next = Crawler::new(strings(&["u1"]));
    let first = next.next_url().unwrap();
    let page = FetchOutcome::Response { status: 200, body: Some("<p>a</p>".to_string()) };
    assert_eq!(
        next.handle_fetch(first, page),
        Ok(CrawlEvent::Document { tokens: strings(&["a"]), document_id: 0 })
    );
}

#[test]
fn success_enqueues_new_links_and_emits_the_document() {
    let start = page("Start");
    let mut crawler = Crawler::new(vec![start.clone()]);
    let url = crawler.next_url().unwrap();
    let body = "<p>Hello, World!</p> <a href=\"./Foo\">foo</a> <a href=\"./Start\">self</a> \
                <a href=\"https://example.com\">out</a> <a href=\"./Bar\">bar</a> \
                <a href=\"./Foo\">again</a>";
    let outcome = FetchOutcome::Response { status: 200, body: Some(body.to_string()) };
    assert_eq!(
        crawler.handle_fetch(url, outcome),
        Ok(CrawlEvent::Document {
            tokens: strings(&["Hello", "World", "foo", "self", "out", "bar", "again"]),
            document_id: 0,
        })
    );
    assert!(crawler.is_enqueued(&page("Foo")));
    assert!(crawler.is_enqueued(&page("Bar")));
    assert_eq!(crawler.pending(), 2);
    assert_eq!(crawler.next_url(), Ok(page("Foo")));
    let second = FetchOutcome::Response {
        status: 299,
        body: Some("<a href=\"./Bar\">bar</a><a href=\"./Baz\">baz</a>".to_string()),
    };
    assert_eq!(
        crawler.handle_fetch(page("Foo"), second),
        Ok(CrawlEvent::Document { tokens: strings(&["barbaz"]), document_id: 1 })
    );
    assert_eq!(drain(&mut crawler), vec![page("Bar"), page("Baz")]);
}

#[test]
fn retry_does_not_consult_the_enqueued_set() {
    let mut crawler = Crawler::new(strings(&["u1"]));
    let url = crawler.next_url().unwrap();
    assert!(crawler.is_enqueued("u1"));
    assert_eq!(crawler.handle_fetch(url.clone(), FetchOutcome::Failed), Ok(CrawlEvent::Retry));
    assert_eq!(crawler.handle_fetch(url, FetchOutcome::Failed), Ok(CrawlEvent::Retry));
    assert_eq!(drain(&mut crawler), strings(&["u1", "u1"]));
}

#[test]
fn accept_numbers_documents_in_order() {
    let mut crawler = Crawler::new(Vec::new());
    for id in 0..3 {
        let content = Content { tokens: strings(&["t"]), links: strings(&["A", "B"]) };
        assert_eq!(
            crawler.accept(content),
            Ok(CrawlEvent::Document { tokens: strings(&["t"]), document_id: id })
        );
    }
    assert_eq!(drain(&mut crawler), vec![page("A"), page("B")]);
}

#[test]
fn document_ids_run_out() {
    let mut crawler = Crawler::resume(strings(&["u1"]), u32::MAX - 1);
    let content = Content { tokens: strings(&["t"]), links: strings(&["A"]) };
    assert_eq!(
        crawler.accept(content.clone()),
        Ok(CrawlEvent::Document { tokens: strings(&["t"]), document_id: u32::MAX - 1 })
    );
    let other = Content { tokens: strings(&["t"]), links: strings(&["B"]) };
    assert_eq!(crawler.accept(other), Err(CrawlError::DocumentIdsExhausted));
    assert!(!crawler.is_enqueued(&page("B")));
    let outcome = FetchOutcome::Response { status: 200, body: Some("<a href=\"./C\">c</a>".to_string()) };
    assert_eq!(
        crawler.handle_fetch("u1".to_string(), outcome),
        Err(CrawlError::DocumentIdsExhausted)
    );
    assert_eq!(drain(&mut crawler), vec!["u1".to_string(), page("A")]);
}

#[test]
fn frontier_enqueues_each_url_once() {
    let mut frontier = Frontier::new();
    assert!(frontier.enqueue("a".to_string()));
    assert!(frontier.enqueue("b".to_string()));
    assert!(!frontier.enqueue("a".to_string()));
    assert_eq!(frontier.len(), 2);
    assert_eq!(frontier.pop(), Some("a".to_string()));
    assert!(!frontier.enqueue("a".to_string()));
    frontier.requeue("a".to_string());
    assert_eq!(frontier.pop(), Some("b".to_string()));
    assert_eq!(frontier.pop(), Some("a".to_string()));
    assert_eq!(frontier.pop(), None);
    assert!(frontier.is_enqueued("b"));
    assert!(!frontier.is_enqueued("c"));
}
