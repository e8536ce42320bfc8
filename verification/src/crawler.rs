//! The decisions of the crawl loop: which URL to fetch next, and what a
//! fetch does to the frontier and sends down the pipeline. Fetching and
//! waiting are left to the caller.

use vstd::prelude::*;
use crate::frontier::{Frontier, FrontierView, discover_all};
use vstd::utf8::encode_utf8;
use crate::html::{MAX_HTML_BYTES, html_outline};
use crate::parser::Parser;
use crate::text::{tokens_of, views};
use crate::walk::{document_links, document_text};

pub use crate::parser::Content;

verus! {

/// The seconds to wait after each fetch, whatever came of it.
pub const POLITENESS_INTERVAL_SECS: u64 = 5;

/// What a fetch came to.
#[derive(Debug, Clone, PartialEq, Eq)]
pub enum FetchOutcome {
    /// No response: a timeout or a connection error.
    Failed,
    /// A response, with its status code and its body; `None` for a body that
    /// is not text.
    Response { status: u16, body: Option<String> },
}

/// What became of the URL that was fetched.
#[derive(Debug, Clone, PartialEq, Eq)]
pub enum CrawlEvent {
    /// The URL is back in the queue: the fetch failed, or the server
    /// answered with neither success nor a client error.
    Retry,
    /// The URL is given up: a client error, or a body that is not text or
    /// too long to parse.
    Dropped,
    /// The page was read: its tokens go down the pipeline under
    /// `document_id`.
    Document { tokens: Vec<String>, document_id: u32 },
}

/// Why the crawl cannot go on.
#[derive(Debug, Clone, Copy, PartialEq, Eq, Structural)]
pub enum CrawlError {
    /// No URL is left in the frontier.
    FrontierExhausted,
    /// Every document identifier has been given out.
    DocumentIdsExhausted,
}

/// A crawler, as contracts see it.
pub struct CrawlerView {
    pub frontier: FrontierView,
    /// The identifier of the next document.
    pub next_document_id: nat,
}

/// Whether `status` is a success: 200 to 299.
pub open spec fn is_success(status: u16) -> bool {
    200 <= status < 300
}

/// Whether `status` is a client error: 400 to 499.
pub open spec fn is_client_error(status: u16) -> bool {
    400 <= status < 500
}

/// The URL under which the page of `link` is fetched.
pub open spec fn follow_up_url(link: Seq<char>) -> Seq<char> {
    "https://api.wikimedia.org/core/v1/wikipedia/en/page/"@ + link + "/html"@
}

/// The URLs of `links`.
pub open spec fn follow_up_urls(links: Seq<Seq<char>>) -> Seq<Seq<char>> {
    Seq::new(links.len(), |i: int| follow_up_url(links[i]))
}

/// The crawler.
pub struct Crawler {
    frontier: Frontier,
    next_document_id: u32,
}

impl View for Crawler {
    type V = CrawlerView;

    closed spec fn view(&self) -> CrawlerView {
        CrawlerView { frontier: self.frontier@, next_document_id: self.next_document_id as nat }
    }
}

impl Crawler {
    /// A crawler that starts from `starting_urls`: they are enqueued in
    /// order, each one once.
    pub fn new(starting_urls: Vec<String>) -> (crawler: Crawler)
        ensures
            crawler@.frontier == discover_all(
                FrontierView { queue: Seq::empty(), enqueued: Set::empty() },
                views(starting_urls@),
            ),
            crawler@.next_document_id == 0,
    {
        Self::resume(starting_urls, 0)
    }

    /// A crawler that starts from `starting_urls` and numbers its documents
    /// from `next_document_id` on, as a crawl does that goes on after
    /// another.
    pub fn resume(starting_urls: Vec<String>, next_document_id: u32) -> (crawler: Crawler)
        ensures
            crawler@.frontier == discover_all(
                FrontierView { queue: Seq::empty(), enqueued: Set::empty() },
                views(starting_urls@),
            ),
            crawler@.next_document_id == next_document_id,
    {
        let mut frontier = Frontier::new();
        let ghost start = frontier@;
        let ghost urls = views(starting_urls@);
        let mut i: usize = 0;
        assert(start == FrontierView { queue: Seq::empty(), enqueued: Set::empty() }) by {
            assert(start.queue =~= Seq::<Seq<char>>::empty());
        }
        while i < starting_urls.len()
            invariant
                i <= starting_urls.len(),
                urls == views(starting_urls@),
                frontier@ == discover_all(start, urls.take(i as int)),
            decreases starting_urls.len() - i,
        {
            assert(urls.take(i + 1).drop_last() =~= urls.take(i as int));
            frontier.enqueue(starting_urls[i].clone());
            i += 1;
        }
        assert(urls.take(starting_urls.len() as int) =~= urls);
        Crawler { frontier, next_document_id }
    }

    /// The URL to fetch next, taken from the front of the queue.
    pub fn next_url(&mut self) -> (next: Result<String, CrawlError>)
        ensures
            final(self)@.next_document_id == old(self)@.next_document_id,
            final(self)@.frontier.enqueued == old(self)@.frontier.enqueued,
            next is Ok <==> old(self)@.frontier.queue.len() > 0,
            next matches Ok(url) ==> url@ == old(self)@.frontier.queue[0],
            next is Ok ==> final(self)@.frontier.queue == old(self)@.frontier.queue.skip(1),
            next matches Err(error) ==> error == CrawlError::FrontierExhausted,
            next is Err ==> final(self)@.frontier.queue.len() == 0,
    {
        match self.frontier.pop() {
            Some(url) => Ok(url),
            None => Err(CrawlError::FrontierExhausted),
        }
    }

    /// The URL under which the page of `link` is fetched.
    pub fn follow_up(link: &str) -> (url: String)
        ensures
            url@ == follow_up_url(link@),
    {
        String::from_str("https://api.wikimedia.org/core/v1/wikipedia/en/page/").concat(link).concat(
            "/html",
        )
    }

    /// Takes in what was extracted from a page: the URLs of its links are
    /// enqueued unless they were enqueued before, and its tokens go down the
    /// pipeline under the next document identifier.
    pub fn accept(&mut self, content: Content) -> (event: Result<CrawlEvent, CrawlError>)
        ensures
            event is Ok <==> old(self)@.next_document_id < u32::MAX,
            event is Ok ==> event == Ok::<CrawlEvent, CrawlError>(
                (CrawlEvent::Document {
                    tokens: content.tokens,
                    document_id: old(self)@.next_document_id as u32,
                }),
            ),
            event is Ok ==> final(self)@.next_document_id == old(self)@.next_document_id + 1,
            event is Ok ==> final(self)@.frontier == discover_all(
                old(self)@.frontier,
                follow_up_urls(views(content.links@)),
            ),
            event is Err ==> event == Err::<CrawlEvent, CrawlError>(
                CrawlError::DocumentIdsExhausted,
            ),
            event is Err ==> final(self)@ == old(self)@,
    {
        if self.next_document_id == u32::MAX {
            return Err(CrawlError::DocumentIdsExhausted);
        }
        let ghost start = self.frontier@;
        let ghost urls = follow_up_urls(views(content.links@));
        let mut i: usize = 0;
        while i < content.links.len()
            invariant
                i <= content.links.len(),
                urls == follow_up_urls(views(content.links@)),
                self.frontier@ == discover_all(start, urls.take(i as int)),
                self.next_document_id == old(self).next_document_id,
            decreases content.links.len() - i,
        {
            assert(urls.take(i + 1).drop_last() =~= urls.take(i as int));
            let url = Self::follow_up(content.links[i].as_str());
            assert(url@ == urls[i as int]);
            self.frontier.enqueue(url);
            i += 1;
        }
        assert(urls.take(content.links.len() as int) =~= urls);
        let document_id: u32 = self.next_document_id;
        self.next_document_id = self.next_document_id + 1;
        Ok(CrawlEvent::Document { tokens: content.tokens, document_id })
    }

    /// Decides what a fetch of `url` leads to. A failed fetch and an answer
    /// that is neither a success nor a client error put the URL back at the
    /// end of the queue. A client error, a body that is not text and one that
    /// is too long to parse give the URL up. A success is parsed and taken in
    /// by [`Crawler::accept`].
    pub fn handle_fetch(&mut self, url: String, outcome: FetchOutcome) -> (event: Result<
        CrawlEvent,
        CrawlError,
    >)
        ensures
            Self::handled(*old(self), *final(self), url@, outcome, event),
    {
        match outcome {
            FetchOutcome::Failed => {
                self.frontier.requeue(url);
                Ok(CrawlEvent::Retry)
            },
            FetchOutcome::Response { status, body } => {
                if 200 <= status && status < 300 {
                    match body {
                        Some(text) => match Parser::try_parse(text.as_str()) {
                            Some(content) => self.accept(content),
                            None => Ok(CrawlEvent::Dropped),
                        },
                        None => Ok(CrawlEvent::Dropped),
                    }
                } else if 400 <= status && status < 500 {
                    Ok(CrawlEvent::Dropped)
                } else {
                    self.frontier.requeue(url);
                    Ok(CrawlEvent::Retry)
                }
            },
        }
    }

    /// What [`Crawler::handle_fetch`] makes of a crawler and a fetch.
    pub open spec fn handled(
        before: Crawler,
        after: Crawler,
        url: Seq<char>,
        outcome: FetchOutcome,
        event: Result<CrawlEvent, CrawlError>,
    ) -> bool {
        match outcome {
            FetchOutcome::Response { status, body: Some(text) } if is_success(status)
                && encode_utf8(text@).len() <= MAX_HTML_BYTES => {
                let nodes = html_outline(text@, "href"@);
                let urls = follow_up_urls(document_links(nodes));
                if before@.next_document_id == u32::MAX {
                    event == Err::<CrawlEvent, CrawlError>(CrawlError::DocumentIdsExhausted)
                        && after@ == before@
                } else {
                    &&& event matches Ok(CrawlEvent::Document { tokens, document_id })
                    &&& views(tokens@) == tokens_of(document_text(nodes))
                    &&& document_id == before@.next_document_id
                    &&& after@.next_document_id == before@.next_document_id + 1
                    &&& after@.frontier == discover_all(before@.frontier, urls)
                }
            },
            FetchOutcome::Response { status, body } if is_success(status) || is_client_error(
                status,
            ) => { event == Ok::<CrawlEvent, CrawlError>(CrawlEvent::Dropped) && after@ == before@ },
            _ => {
                &&& event == Ok::<CrawlEvent, CrawlError>(CrawlEvent::Retry)
                &&& after@.frontier.queue == before@.frontier.queue.push(url)
                &&& after@.frontier.enqueued == before@.frontier.enqueued
                &&& after@.next_document_id == before@.next_document_id
            },
        }
    }

    /// The number of pending URLs.
    pub fn pending(&self) -> (pending: usize)
        ensures
            pending == self@.frontier.queue.len(),
    {
        self.frontier.len()
    }

    /// Whether `url` was ever enqueued as discovered.
    pub fn is_enqueued(&self, url: &str) -> (enqueued: bool)
        ensures
            enqueued == self@.frontier.enqueued.contains(url@),
    {
        self.frontier.is_enqueued(url)
    }
}

} // verus!
