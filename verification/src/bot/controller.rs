//! The control of a search that runs apart from its caller.
//!
//! The controller runs no search itself. It hands out a request for every
//! search that is started, each with a ticket of its own, and takes back
//! what the search has found together with that ticket. Only the result
//! of the search started last is ever taken; what comes back from a
//! search that was stopped or replaced is dropped.

use vstd::prelude::*;
use crate::bot::nega_scout_bot::SearchError;
use crate::bot::SearchResult;
use crate::constants::MAX_SEARCH_DEPTH;
use crate::game::Game;

verus! {

/// What a caller sees of the search.
#[derive(Clone, Debug)]
pub enum BotState {
    /// No search is running and no result is waiting.
    NotStarted,
    /// The search with this ticket is running.
    Pending(u64),
    /// The search started last has found this.
    Finished(SearchResult),
}

impl Default for BotState {
    fn default() -> (r: BotState)
        ensures
            r is NotStarted,
    {
        BotState::NotStarted
    }
}

/// A search to be run: its ticket, the position, the number of the move
/// and the depth.
#[derive(Clone, Copy, Debug)]
pub struct SearchRequest {
    pub ticket: u64,
    pub game: Game,
    pub game_move: i32,
    pub depth: i32,
}

/// The controller of the searches of one player.
#[derive(Clone, Debug)]
pub struct NegaScoutBot {
    pub state: BotState,
    /// The depth of the next search.
    pub search_depth: i32,
    /// The number of searches started so far; the ticket of the last one.
    pub issued: u64,
}

/// What can happen to a controller.
pub enum BotEvent {
    /// A search of the position at the given move number is started.
    Start(Game, i32),
    /// The search with the given ticket has ended.
    Deliver(u64, Result<SearchResult, SearchError>),
    /// The running search is stopped.
    Stop,
}

impl NegaScoutBot {
    /// A running search has the ticket issued last.
    pub open spec fn wf(self) -> bool {
        self.state matches BotState::Pending(t) ==> t == self.issued
    }

    /// The controller after a search was started.
    pub open spec fn started(self) -> NegaScoutBot {
        NegaScoutBot {
            state: BotState::Pending((self.issued + 1) as u64),
            search_depth: self.search_depth,
            issued: (self.issued + 1) as u64,
        }
    }

    /// The controller after the running search was stopped.
    pub open spec fn stopped(self) -> NegaScoutBot {
        NegaScoutBot { state: BotState::NotStarted, ..self }
    }

    /// The controller after the search with the ticket `ticket` has ended.
    ///
    /// Only the search that is running is heard: its result is kept; if
    /// it has failed, no search is running any more. What any other
    /// search brings back changes nothing.
    pub open spec fn delivered(
        self,
        ticket: u64,
        outcome: Result<SearchResult, SearchError>,
    ) -> NegaScoutBot {
        if self.state == BotState::Pending(ticket) {
            match outcome {
                Ok(found) => NegaScoutBot { state: BotState::Finished(found), ..self },
                Err(_) => NegaScoutBot { state: BotState::NotStarted, ..self },
            }
        } else {
            self
        }
    }

    /// The controller after one event.
    pub open spec fn after(self, event: BotEvent) -> NegaScoutBot {
        match event {
            BotEvent::Start(_, _) => self.started(),
            BotEvent::Deliver(ticket, outcome) => self.delivered(ticket, outcome),
            BotEvent::Stop => self.stopped(),
        }
    }

    /// The controller after the events, the first of them first.
    pub open spec fn after_all(self, events: Seq<BotEvent>) -> NegaScoutBot
        decreases events.len(),
    {
        if events.len() == 0 {
            self
        } else {
            self.after(events[0]).after_all(events.drop_first())
        }
    }

    /// A controller without search, whose searches go to the given depth.
    pub fn new(search_depth: i32) -> (r: NegaScoutBot)
        ensures
            r.state is NotStarted,
            r.search_depth == search_depth,
            r.issued == 0,
            r.wf(),
    {
        NegaScoutBot { state: BotState::NotStarted, search_depth, issued: 0 }
    }

    /// Starts a search of the position and returns the request to run it.
    /// A search that was running before is thereby replaced: what it
    /// brings back will be dropped.
    pub fn start_search(&mut self, game: Game, game_move: i32) -> (request: SearchRequest)
        requires
            old(self).issued < u64::MAX,
        ensures
            *final(self) == old(self).started(),
            final(self).wf(),
            request.ticket == final(self).issued,
            request.game == game,
            request.game_move == game_move,
            request.depth == old(self).search_depth,
    {
        self.issued = self.issued + 1;
        self.state = BotState::Pending(self.issued);
        SearchRequest { ticket: self.issued, game, game_move, depth: self.search_depth }
    }

    /// Takes what the search with the ticket `ticket` has brought back.
    pub fn deliver(&mut self, ticket: u64, outcome: Result<SearchResult, SearchError>)
        ensures
            *final(self) == old(self).delivered(ticket, outcome),
            old(self).wf() ==> final(self).wf(),
    {
        let running: bool = match &self.state {
            BotState::Pending(t) => *t == ticket,
            _ => false,
        };
        if running {
            match outcome {
                Ok(found) => {
                    self.state = BotState::Finished(found);
                },
                Err(_) => {
                    self.state = BotState::NotStarted;
                },
            }
        }
    }

    /// What the search has come to. This asks nothing of the search and does not wait for it.
    pub fn poll(&self) -> (r: &BotState)
        ensures
            *r == self.state,
    {
        &self.state
    }

    /// Stops the running search and drops a result that is waiting.
    pub fn stop(&mut self)
        ensures
            *final(self) == old(self).stopped(),
            final(self).wf(),
    {
        self.state = BotState::NotStarted;
    }

    /// Puts the controller back to where `new` left it, with the same depth.
    ///
    /// The count of tickets goes on, so that what a search started before
    /// brings back is still dropped.
    pub fn recreate(&mut self)
        ensures
            final(self).state is NotStarted,
            final(self).search_depth == old(self).search_depth,
            final(self).issued == old(self).issued,
            final(self).wf(),
    {
        self.state = BotState::NotStarted;
    }

    /// Takes the result that is waiting, if there is one, and makes the
    /// next search one ply deeper, up to the greatest depth.
    pub fn take_result_and_deepen(&mut self) -> (r: Option<SearchResult>)
        ensures
            old(self).state matches BotState::Finished(found) ==> r == Some(found),
            old(self).state is Finished ==> final(self).state is NotStarted,
            old(self).state is Finished ==> final(self).search_depth == (if old(self).search_depth
                < MAX_SEARCH_DEPTH {
                old(self).search_depth + 1
            } else {
                old(self).search_depth as int
            }),
            !(old(self).state is Finished) ==> r is None && *final(self) == *old(self),
            final(self).issued == old(self).issued,
            old(self).wf() ==> final(self).wf(),
    {
        let mut state: BotState = BotState::NotStarted;
        std::mem::swap(&mut self.state, &mut state);
        match state {
            BotState::Finished(found) => {
                if self.search_depth < MAX_SEARCH_DEPTH {
                    self.search_depth += 1;
                }
                Some(found)
            },
            other => {
                self.state = other;
                None
            },
        }
    }

    /// A move was played: the running search is stopped, a waiting result
    /// is dropped, and the next search starts again at the depth `base_depth`.
    pub fn position_changed(&mut self, base_depth: i32)
        ensures
            final(self).state is NotStarted,
            final(self).search_depth == base_depth,
            final(self).issued == old(self).issued,
            final(self).wf(),
    {
        self.state = BotState::NotStarted;
        self.search_depth = base_depth;
    }
}

/// The event is the return of a search with a ticket up to `n`.
pub open spec fn is_stale(event: BotEvent, n: u64) -> bool {
    event matches BotEvent::Deliver(t, _) && t <= n
}

/// The events without the returns of searches with a ticket up to `n`.
pub open spec fn without_stale(events: Seq<BotEvent>, n: u64) -> Seq<BotEvent>
    decreases events.len(),
{
    if events.len() == 0 {
        events
    } else if is_stale(events[0], n) {
        without_stale(events.drop_first(), n)
    } else {
        seq![events[0]] + without_stale(events.drop_first(), n)
    }
}

/// What a search brings back after it was stopped or replaced never
/// shows: whatever happens to a controller that has no search running
/// with a ticket up to `n`, it comes to the same state as if no search
/// with such a ticket had ever come back.
pub proof fn lemma_stale_results_never_show(bot: NegaScoutBot, events: Seq<BotEvent>, n: u64)
    requires
        bot.wf(),
        n <= bot.issued,
        bot.state matches BotState::Pending(t) ==> t > n,
        bot.issued + events.len() <= u64::MAX,
    ensures
        bot.after_all(events) == bot.after_all(without_stale(events, n)),
    decreases events.len(),
{
    if events.len() > 0 {
        let rest = events.drop_first();
        let next = bot.after(events[0]);
        lemma_stale_results_never_show(next, rest, n);
        if !is_stale(events[0], n) {
            let kept = seq![events[0]] + without_stale(rest, n);
            assert(kept.drop_first() =~= without_stale(rest, n));
        }
    }
}

/// After `stop`, the controller shows the result of no search that was
/// started before: it comes to the same state whether or not such a
/// search comes back.
pub proof fn lemma_stop_drops_running_search(bot: NegaScoutBot, events: Seq<BotEvent>)
    requires
        bot.wf(),
        bot.issued + events.len() <= u64::MAX,
    ensures
        bot.stopped().after_all(events) == bot.stopped().after_all(
            without_stale(events, bot.issued),
        ),
{
    lemma_stale_results_never_show(bot.stopped(), events, bot.issued);
}

/// Of two searches started one after the other, with or without a stop
/// between them, only the second shows: what the first brings back is
/// dropped before and after the second has come back, and the result of
/// the second stays once it is there.
pub proof fn lemma_only_the_last_search_shows(
    bot: NegaScoutBot,
    stop_between: bool,
    first: Result<SearchResult, SearchError>,
    second: SearchResult,
)
    requires
        bot.wf(),
        bot.issued + 2 <= u64::MAX,
    ensures
        ({
            let one = bot.started();
            let two = (if stop_between {
                one.stopped()
            } else {
                one
            }).started();
            &&& two.state == BotState::Pending(two.issued)
            &&& two.delivered(one.issued, first) == two
            &&& two.delivered(two.issued, Ok(second)).state == BotState::Finished(second)
            &&& two.delivered(two.issued, Ok(second)).delivered(one.issued, first)
                == two.delivered(two.issued, Ok(second))
        }),
{
}

} // verus!
