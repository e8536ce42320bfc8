//! The frontier: the queue of URLs that await their fetch, and the set of
//! URLs that were ever discovered.

use std::collections::VecDeque;
use vstd::prelude::*;
use vstd::hash_set::StringHashSet;
use crate::text::views;

verus! {

/// A frontier, as contracts see it.
pub struct FrontierView {
    /// The pending URLs, the next one first.
    pub queue: Seq<Seq<char>>,
    /// The URLs that were enqueued as discovered.
    pub enqueued: Set<Seq<char>>,
}

/// `frontier` after the discovery of `url`: at the back of the queue and
/// marked, unless it was marked before.
pub open spec fn discover(frontier: FrontierView, url: Seq<char>) -> FrontierView {
    if frontier.enqueued.contains(url) {
        frontier
    } else {
        FrontierView { queue: frontier.queue.push(url), enqueued: frontier.enqueued.insert(url) }
    }
}

/// `frontier` after the discovery of `urls`, one after the other.
pub open spec fn discover_all(frontier: FrontierView, urls: Seq<Seq<char>>) -> FrontierView
    decreases urls.len(),
{
    if urls.len() == 0 {
        frontier
    } else {
        discover(discover_all(frontier, urls.drop_last()), urls.last())
    }
}

/// Discovery marks what it finds and forgets no mark. The queue only grows
/// at its back, by URLs that were found and not marked, each one once.
pub proof fn lemma_discover_all(frontier: FrontierView, urls: Seq<Seq<char>>)
    ensures
        forall|url: Seq<char>|
            #![trigger discover_all(frontier, urls).enqueued.contains(url)]
            discover_all(frontier, urls).enqueued.contains(url) <==> frontier.enqueued.contains(url)
                || urls.contains(url),
        frontier.queue.len() <= discover_all(frontier, urls).queue.len(),
        discover_all(frontier, urls).queue.take(frontier.queue.len() as int) == frontier.queue,
        forall|i: int|
            frontier.queue.len() <= i < discover_all(frontier, urls).queue.len()
                ==> !frontier.enqueued.contains(#[trigger] discover_all(frontier, urls).queue[i])
                && urls.contains(discover_all(frontier, urls).queue[i]),
        forall|i: int, j: int|
            frontier.queue.len() <= i < j < discover_all(frontier, urls).queue.len()
                ==> #[trigger] discover_all(frontier, urls).queue[i] != #[trigger] discover_all(
                frontier,
                urls,
            ).queue[j],
    decreases urls.len(),
{
    if urls.len() == 0 {
        assert(frontier.queue.take(frontier.queue.len() as int) =~= frontier.queue);
    } else {
        let front = urls.drop_last();
        let last = urls.last();
        lemma_discover_all(frontier, front);
        let earlier = discover_all(frontier, front);
        let all = discover_all(frontier, urls);
        assert(urls[urls.len() - 1] == last);
        assert forall|url: Seq<char>| front.contains(url) implies urls.contains(url) by {
            let at = choose|at: int| 0 <= at < front.len() && front[at] == url;
            assert(urls[at] == url);
        }
        assert forall|url: Seq<char>| urls.contains(url) implies front.contains(url) || url
            == last by {
            let at = choose|at: int| 0 <= at < urls.len() && urls[at] == url;
            if at < front.len() {
                assert(front[at] == url);
            }
        }
        assert(all.queue.take(frontier.queue.len() as int) =~= earlier.queue.take(
            frontier.queue.len() as int,
        ));
        assert forall|url: Seq<char>|
            all.enqueued.contains(url) <==> frontier.enqueued.contains(url) || urls.contains(
                url,
            ) by {
            assert(earlier.enqueued.contains(url) <==> frontier.enqueued.contains(url)
                || front.contains(url));
            if url == last {
                assert(urls.contains(last));
            }
        }
        assert forall|i: int| frontier.queue.len() <= i < all.queue.len() implies
            !frontier.enqueued.contains(#[trigger] all.queue[i]) && urls.contains(all.queue[i]) by {
            if i < earlier.queue.len() {
                assert(all.queue[i] == earlier.queue[i]);
                assert(front.contains(earlier.queue[i]));
            } else {
                assert(all.queue[i] == last);
                assert(!earlier.enqueued.contains(last));
                assert(urls.contains(last));
            }
        }
        assert forall|i: int, j: int| frontier.queue.len() <= i < j < all.queue.len() implies
            #[trigger] all.queue[i] != #[trigger] all.queue[j] by {
            assert(all.queue[i] == earlier.queue[i]);
            if j < earlier.queue.len() {
                assert(all.queue[j] == earlier.queue[j]);
            } else {
                assert(all.queue[j] == last);
                assert(front.contains(earlier.queue[i]));
                assert(earlier.enqueued.contains(earlier.queue[i]));
            }
        }
    }
}

/// The frontier of a crawl.
pub struct Frontier {
    queue: VecDeque<String>,
    enqueued: StringHashSet,
}

impl View for Frontier {
    type V = FrontierView;

    closed spec fn view(&self) -> FrontierView {
        FrontierView { queue: views(self.queue@), enqueued: self.enqueued@ }
    }
}

impl Frontier {
    /// A frontier without URLs.
    pub fn new() -> (frontier: Frontier)
        ensures
            frontier@.queue.len() == 0,
            frontier@.enqueued == Set::<Seq<char>>::empty(),
    {
        let frontier = Frontier { queue: VecDeque::new(), enqueued: StringHashSet::new() };
        assert(frontier@.queue =~= Seq::<Seq<char>>::empty());
        frontier
    }

    /// The number of pending URLs.
    pub fn len(&self) -> (len: usize)
        ensures
            len == self@.queue.len(),
    {
        self.queue.len()
    }

    /// Whether `url` was ever enqueued as discovered.
    pub fn is_enqueued(&self, url: &str) -> (enqueued: bool)
        ensures
            enqueued == self@.enqueued.contains(url@),
    {
        self.enqueued.contains(url)
    }

    /// Enqueues a discovered URL and marks it, unless it is marked already.
    /// Returns whether it was enqueued.
    pub fn enqueue(&mut self, url: String) -> (fresh: bool)
        ensures
            final(self)@ == discover(old(self)@, url@),
            fresh == !old(self)@.enqueued.contains(url@),
    {
        if self.enqueued.contains(url.as_str()) {
            false
        } else {
            let ghost before = self@.queue;
            self.enqueued.insert(url.clone());
            self.queue.push_back(url);
            assert(self@.queue =~= before.push(url@));
            true
        }
    }

    /// Puts a URL back at the end of the queue for another try. The marks
    /// are neither read nor changed.
    pub fn requeue(&mut self, url: String)
        ensures
            final(self)@.queue == old(self)@.queue.push(url@),
            final(self)@.enqueued == old(self)@.enqueued,
    {
        let ghost before = self@.queue;
        self.queue.push_back(url);
        assert(self@.queue =~= before.push(url@));
    }

    /// Takes the next URL from the front of the queue.
    pub fn pop(&mut self) -> (next: Option<String>)
        ensures
            final(self)@.enqueued == old(self)@.enqueued,
            match next {
                Some(url) => old(self)@.queue.len() > 0 && url@ == old(self)@.queue[0]
                    && final(self)@.queue == old(self)@.queue.skip(1),
                None => old(self)@.queue.len() == 0 && final(self)@.queue.len() == 0,
            },
    {
        let ghost before = self@.queue;
        let next = self.queue.pop_front();
        proof {
            if next is Some {
                assert(self@.queue =~= before.skip(1));
            } else {
                assert(self@.queue =~= before);
            }
        }
        next
    }
}

} // verus!
