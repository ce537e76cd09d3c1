//! Fetching a graph that is not on disk yet.

use vstd::prelude::*;
use vstd::string::*;
use crate::path::{has_name, name_start, stem_len, tidy, with_ext, with_extension};

verus! {

/// Bytes between two lines of the log.
pub const LOG_EVERY: u64 = 50_000_000;

/// Where a graph comes from.
pub enum GraphSource {
    /// It is on disk.
    Present,
    /// It is fetched from `url` into `tmp`, and moved into place when complete.
    Fetch { url: String, tmp: String },
    /// It is not there, and nothing says where to get it.
    Missing,
}

/// Decides where the graph at `path` comes from.
pub fn ensure_graph(present: bool, path: &str, url: Option<&str>) -> (r: GraphSource)
    ensures
        r is Present <==> present,
        r is Missing <==> !present && url is None,
        r matches GraphSource::Fetch { url: u, tmp } ==> {
            &&& !present
            &&& url is Some
            &&& u@ == url->Some_0@
            &&& tmp@ == with_ext(path@, "graph.tmp"@)
            &&& has_name(path@) ==> tmp@ != path@
        },
{
    proof {
        lemma_another_path(path@);
    }
    if present {
        return GraphSource::Present;
    }
    match url {
        Some(u) => GraphSource::Fetch {
            url: String::from_str(u),
            tmp: with_extension(path, "graph.tmp"),
        },
        None => GraphSource::Missing,
    }
}

proof fn lemma_name_start(s: Seq<char>, n: int)
    requires
        0 <= n <= s.len(),
    ensures
        0 <= name_start(s, n) <= n,
    decreases n,
{
    if n > 0 && s[n - 1] != '/' {
        lemma_name_start(s, n - 1);
    }
}

/// The file that is written to first is not the one that it becomes.
proof fn lemma_another_path(path: Seq<char>)
    ensures
        has_name(path) ==> with_ext(path, "graph.tmp"@) != path,
{
    reveal_strlit("graph.tmp");
    let tmp = with_ext(path, "graph.tmp"@);
    if has_name(path) && tmp == path {
        let n = path.len() as int;
        let t = tidy(path);
        assert("graph.tmp"@.len() == 9);
        assert(path.subrange(n - 9, n) =~= "graph.tmp"@);
        assert(path[n - 1] == path.subrange(n - 9, n)[8]);
        assert(path[n - 2] == path.subrange(n - 9, n)[7]);
        assert(path[n - 3] == path.subrange(n - 9, n)[6]);
        assert(path[n - 4] == path.subrange(n - 9, n)[5]);
        assert(path[n - 5] == path.subrange(n - 9, n)[4]);
        assert(t == path);
        reveal_with_fuel(name_start, 6);
        lemma_name_start(path, n - 5);
        let start = name_start(path, n);
        assert(start <= n - 5);
        reveal_with_fuel(stem_len, 5);
        assert(stem_len(path, start, n, n) == n - 4);
    }
}

/// The server sent the file.
pub open spec fn is_good(status: u16) -> bool {
    200 <= status < 300
}

/// Computes [`is_good`].
pub fn is_success(status: u16) -> (r: bool)
    ensures
        r == is_good(status),
{
    200 <= status && status < 300
}

/// How far a download has come.
#[derive(Debug, Clone, Copy, PartialEq, Eq)]
pub struct Progress {
    pub downloaded: u64,
    /// What `downloaded` was when the log last told it.
    pub last_logged: u64,
}

impl Progress {
    /// The log is less than [`LOG_EVERY`] bytes behind.
    pub open spec fn wf(self) -> bool {
        self.last_logged <= self.downloaded < self.last_logged + LOG_EVERY
    }

    pub fn new() -> (r: Progress)
        ensures
            r.wf(),
            r.downloaded == 0,
            r.last_logged == 0,
    {
        Progress { downloaded: 0, last_logged: 0 }
    }

    /// Counts `n` bytes more. Tells whether the log is due.
    pub fn advance(&mut self, n: u64) -> (due: bool)
        requires
            old(self).wf(),
            old(self).downloaded + n <= u64::MAX,
        ensures
            final(self).wf(),
            final(self).downloaded == old(self).downloaded + n,
            due == (old(self).downloaded + n - old(self).last_logged >= LOG_EVERY),
            final(self).last_logged == if due {
                final(self).downloaded
            } else {
                old(self).last_logged
            },
    {
        self.downloaded = self.downloaded + n;
        if self.downloaded - self.last_logged >= LOG_EVERY {
            self.last_logged = self.downloaded;
            true
        } else {
            false
        }
    }
}

/// A step of fetching a graph.
#[derive(Debug, Clone, Copy, PartialEq, Eq, Structural)]
pub enum Fetching {
    /// Remove what a broken run left, and ask for the file.
    Ask,
    /// Make the temporary file.
    Open,
    /// Read a piece of the body.
    Read,
    /// Write it to the temporary file.
    Write,
    /// Move the temporary file into place. Nothing else touches the final one.
    Publish,
    Done,
    Failed,
}

/// What came of a step.
#[derive(Debug, Clone, Copy, PartialEq, Eq, Structural)]
pub enum Event {
    /// The server answered with this status.
    Answered(u16),
    /// A piece of so many bytes was read.
    Piece(u64),
    /// The body is at its end.
    End,
    /// The step went well.
    Good,
    /// It did not.
    Bad,
}

impl Fetching {
    /// The step that follows. What does not fit the step counts as a failure.
    pub open spec fn following(self, event: Event) -> Fetching {
        match (self, event) {
            (Fetching::Done, _) => Fetching::Done,
            (Fetching::Ask, Event::Answered(status)) => if is_good(status) {
                Fetching::Open
            } else {
                Fetching::Failed
            },
            (Fetching::Open, Event::Good) => Fetching::Read,
            (Fetching::Read, Event::Piece(_)) => Fetching::Write,
            (Fetching::Read, Event::End) => Fetching::Publish,
            (Fetching::Write, Event::Good) => Fetching::Read,
            (Fetching::Publish, Event::Good) => Fetching::Done,
            _ => Fetching::Failed,
        }
    }

    /// Computes [`Fetching::following`].
    pub fn next(self, event: Event) -> (r: Fetching)
        ensures
            r == self.following(event),
    {
        match (self, event) {
            (Fetching::Done, _) => Fetching::Done,
            (Fetching::Ask, Event::Answered(status)) => if is_success(status) {
                Fetching::Open
            } else {
                Fetching::Failed
            },
            (Fetching::Open, Event::Good) => Fetching::Read,
            (Fetching::Read, Event::Piece(_)) => Fetching::Write,
            (Fetching::Read, Event::End) => Fetching::Publish,
            (Fetching::Write, Event::Good) => Fetching::Read,
            (Fetching::Publish, Event::Good) => Fetching::Done,
            _ => Fetching::Failed,
        }
    }
}

/// The step after the first `k` events.
pub open spec fn fetching_after(events: Seq<Event>, k: int) -> Fetching
    decreases k,
{
    if k <= 0 {
        Fetching::Ask
    } else {
        fetching_after(events, k - 1).following(events[k - 1])
    }
}

/// Event `j` of a fetch that has not failed: the answer, the temporary file, then
/// pieces that were read and written in turn.
pub open spec fn fits(event: Event, j: int) -> bool {
    if j == 0 {
        event matches Event::Answered(status) && is_good(status)
    } else if j % 2 == 1 {
        event == Event::Good
    } else {
        event is Piece
    }
}

/// The body is complete on disk after the first `k` events: a good answer, a file
/// made, every piece read and written, and the end of the body reached.
pub open spec fn is_complete(events: Seq<Event>, k: int) -> bool {
    &&& 3 <= k <= events.len()
    &&& k % 2 == 1
    &&& events[k - 1] == Event::End
    &&& forall|j: int| 0 <= j < k - 1 ==> fits(#[trigger] events[j], j)
}

/// The file moves into place only when all of it was read and written, and the
/// fetch succeeds only when it did move. A fetch that fails never got there, so
/// it leaves nothing at the final place.
pub proof fn lemma_published_when_complete(events: Seq<Event>, k: int)
    requires
        0 <= k <= events.len(),
    ensures
        fetching_after(events, k) == Fetching::Publish <==> is_complete(events, k),
        fetching_after(events, k) == Fetching::Done <==> exists|m: int|
            m < k && #[trigger] is_complete(events, m) && events[m] == Event::Good,
        fetching_after(events, k) == Fetching::Failed ==> forall|j: int|
            0 <= j <= k ==> #[trigger] fetching_after(events, j) != Fetching::Done,
    decreases k,
{
    lemma_shape(events, k);
    if k > 0 {
        lemma_published_when_complete(events, k - 1);
        lemma_shape(events, k - 1);
        let before = fetching_after(events, k - 1);
        let now = fetching_after(events, k);
        if now == Fetching::Done {
            if before == Fetching::Publish {
                assert(is_complete(events, k - 1) && events[k - 1] == Event::Good);
            } else {
                let m = choose|m: int|
                    m < k - 1 && #[trigger] is_complete(events, m) && events[m] == Event::Good;
                assert(is_complete(events, m) && m < k);
            }
        }
        if exists|m: int| m < k && #[trigger] is_complete(events, m) && events[m] == Event::Good {
            let m = choose|m: int|
                m < k && #[trigger] is_complete(events, m) && events[m] == Event::Good;
            if m < k - 1 {
                assert(before == Fetching::Done);
            } else {
                assert(before == Fetching::Publish);
            }
        }
        if now == Fetching::Failed {
            assert(before != Fetching::Done);
            assert forall|j: int| 0 <= j <= k implies #[trigger] fetching_after(events, j)
                != Fetching::Done by {
                if j < k && fetching_after(events, j) == Fetching::Done {
                    lemma_done_stays(events, j, k - 1);
                }
            }
        }
    }
}

proof fn lemma_done_stays(events: Seq<Event>, j: int, k: int)
    requires
        0 <= j <= k,
        fetching_after(events, j) == Fetching::Done,
    ensures
        fetching_after(events, k) == Fetching::Done,
    decreases k - j,
{
    if j < k {
        lemma_done_stays(events, j, k - 1);
    }
}

/// All of the first `k` events fit.
spec fn all_fit(events: Seq<Event>, k: int) -> bool {
    forall|j: int| 0 <= j < k ==> fits(#[trigger] events[j], j)
}

/// Where a fetch stands after `k` events.
proof fn lemma_shape(events: Seq<Event>, k: int)
    requires
        0 <= k <= events.len(),
    ensures
        ({
            let step = fetching_after(events, k);
            &&& step == Fetching::Ask <==> k == 0
            &&& step == Fetching::Open <==> k == 1 && all_fit(events, k)
            &&& step == Fetching::Read <==> k >= 2 && k % 2 == 0 && all_fit(events, k)
            &&& step == Fetching::Write <==> k >= 3 && k % 2 == 1 && all_fit(events, k)
            &&& step == Fetching::Publish <==> is_complete(events, k)
        }),
    decreases k,
{
    if k > 0 {
        lemma_shape(events, k - 1);
        let e = events[k - 1];
        assert(all_fit(events, k) <==> all_fit(events, k - 1) && fits(e, k - 1)) by {
            if all_fit(events, k - 1) && fits(e, k - 1) {
                assert forall|j: int| 0 <= j < k implies fits(#[trigger] events[j], j) by {
                    if j < k - 1 {
                        assert(fits(events[j], j));
                    }
                }
            }
            if all_fit(events, k) {
                assert(fits(events[k - 1], k - 1));
            }
        }
        assert(is_complete(events, k) <==> 3 <= k && k % 2 == 1 && e == Event::End && all_fit(
            events,
            k - 1,
        ));
    }
}

} // verus!
