//! What happens in all repositories together: arrivals, timers, and the driver.
use vstd::prelude::*;

use crate::lane::{fired, Launch, Repo, Rules};
use crate::listing::{first, listing};
use crate::names::name_lt;
use crate::policy::Stats;
use crate::shape::Shape;

verus! {

/// A job as it arrives.
pub struct Ask {
    pub at: u64,
    pub repo: Seq<char>,
    pub shape: Shape,
}

/// Repositories with waiting jobs, the batches launched so far, and the diagnostics.
pub struct State {
    pub repos: Map<Seq<char>, Repo>,
    pub launches: Seq<Launch>,
    pub stats: Stats,
}

impl State {
    pub open spec fn start() -> State {
        State { repos: Map::empty(), launches: Seq::empty(), stats: Stats::none() }
    }

    /// The repositories with a timer.
    pub open spec fn awake(self) -> Set<Seq<char>> {
        Set::new(|name: Seq<char>| self.repos.contains_key(name) && self.repos[name].wake is Some)
    }

    /// Timers ring in order of time, then of name.
    pub open spec fn rings(self, a: Seq<char>, b: Seq<char>) -> bool {
        let x = self.repos[a].wake->0;
        let y = self.repos[b].wake->0;
        x < y || x == y && name_lt(a, b)
    }

    pub open spec fn idle(self) -> bool {
        forall|name: Seq<char>| !#[trigger] self.awake().contains(name)
    }

    /// The repository whose timer rings first.
    pub open spec fn next(self) -> Seq<char> {
        first(self.awake(), |a: Seq<char>, b: Seq<char>| self.rings(a, b))
    }

    /// When the first timer rings.
    pub open spec fn next_wake(self) -> Option<u64> {
        if self.idle() {
            None
        } else {
            self.repos[self.next()].wake
        }
    }

    /// A timer rings before `limit`, or at it if that counts.
    pub open spec fn rung(self, limit: u64, inclusive: bool) -> bool {
        self.next_wake() matches Some(time) && (time < limit || inclusive && time == limit)
    }

    /// The jobs that wait.
    pub open spec fn waiting(self) -> Set<usize> {
        Set::new(
            |t: usize|
                exists|name: Seq<char>| #[trigger]
                    self.repos.contains_key(name) && self.repos[name].items.contains_key(t),
        )
    }

    /// The repository, empty if no job waits in it.
    pub open spec fn repo(self, name: Seq<char>) -> Repo {
        if self.repos.contains_key(name) {
            self.repos[name]
        } else {
            Repo { items: Map::empty(), plan: Seq::empty(), wake: None }
        }
    }

    /// The batch of arrivals, filed under their repositories.
    pub open spec fn joined(self, batch: Map<usize, Ask>) -> State {
        State {
            repos: Map::new(
                |name: Seq<char>| self.repos.contains_key(name) || touched(batch).contains(name),
                |name: Seq<char>| filed(self.repo(name), batch, name),
            ),
            ..self
        }
    }
}

/// The repositories that the arrivals belong to.
pub open spec fn touched(batch: Map<usize, Ask>) -> Set<Seq<char>> {
    Set::new(
        |name: Seq<char>| exists|t: usize| #[trigger] batch.contains_key(t) && batch[t].repo == name,
    )
}

/// The arrivals that belong to one repository.
pub open spec fn news(batch: Map<usize, Ask>, name: Seq<char>) -> Map<usize, Shape> {
    Map::new(
        |t: usize| batch.contains_key(t) && batch[t].repo == name,
        |t: usize| batch[t].shape,
    )
}

/// The repository with its arrivals.
pub open spec fn filed(repo: Repo, batch: Map<usize, Ask>, name: Seq<char>) -> Repo {
    Repo { items: repo.items.union_prefer_right(news(batch, name)), ..repo }
}

impl Rules {
    /// Plans one repository anew.
    pub open spec fn replan(self, s: State, name: Seq<char>, now: u64) -> State {
        match self.planned(now, s.repos[name]) {
            Some(repo) => State {
                repos: s.repos.insert(name, repo),
                stats: s.stats.after(self.effort(now, s.repos[name])),
                ..s
            },
            None => State { repos: s.repos.remove(name), ..s },
        }
    }

    /// Launches what is due in the repository whose timer rings, and plans the rest anew.
    pub open spec fn fire(self, s: State, name: Seq<char>, now: u64) -> State {
        let (left, launches) = fired(self.rates, now, s.repos[name]);
        self.replan(
            State {
                repos: s.repos.insert(
                    name,
                    Repo { items: left, plan: s.repos[name].plan, wake: None },
                ),
                launches: s.launches + launches,
                ..s
            },
            name,
            now,
        )
    }

    /// The first timer rings.
    pub open spec fn ring(self, s: State) -> State {
        self.fire(s, s.next(), s.next_wake()->0)
    }

    /// Timers ring until the next one is beyond the limit. Each launches something.
    pub open spec fn advance(self, s: State, limit: u64, inclusive: bool) -> State
        decreases s.waiting().len(),
    {
        if s.rung(limit, inclusive) && self.ring(s).waiting().len() < s.waiting().len() {
            self.advance(self.ring(s), limit, inclusive)
        } else {
            s
        }
    }

    /// Plans the first `k` listed repositories anew.
    pub open spec fn replans(self, s: State, names: Seq<Seq<char>>, k: nat, now: u64) -> State
        decreases k,
    {
        if k == 0 {
            s
        } else {
            self.replan(self.replans(s, names, (k - 1) as nat, now), names[k - 1], now)
        }
    }

    /// All jobs that arrive now are seen before any repository is planned anew.
    pub open spec fn arrive(self, s: State, batch: Map<usize, Ask>, now: u64) -> State {
        let names = listing(touched(batch), |a: Seq<char>, b: Seq<char>| name_lt(a, b));
        self.replans(s.joined(batch), names, names.len(), now)
    }
}

/// `now` is when the first of the jobs arrives.
pub open spec fn is_dawn(asks: Map<usize, Ask>, now: u64) -> bool {
    &&& exists|t: usize| #[trigger] asks.contains_key(t) && asks[t].at == now
    &&& forall|t: usize| #[trigger] asks.contains_key(t) ==> now <= asks[t].at
}

/// When the first of the jobs arrives.
pub open spec fn dawn(asks: Map<usize, Ask>) -> u64 {
    choose|now: u64| is_dawn(asks, now)
}

/// The jobs that arrive at one time.
pub open spec fn arriving(asks: Map<usize, Ask>, now: u64) -> Map<usize, Ask> {
    asks.restrict(asks.dom().filter(|t: usize| asks[t].at == now))
}

/// The jobs that arrive later.
pub open spec fn later(asks: Map<usize, Ask>, now: u64) -> Map<usize, Ask> {
    asks.restrict(asks.dom().filter(|t: usize| asks[t].at != now))
}

impl Rules {
    /// One time at which jobs arrive. Timers before it ring first. Timers at exactly
    /// that time wait until every arrival has been revealed.
    pub open spec fn moment(self, s: State, batch: Map<usize, Ask>, now: u64) -> State {
        self.advance(self.arrive(self.advance(s, now, false), batch, now), now, true)
    }

    /// All arrivals in turn.
    pub open spec fn drive(self, s: State, asks: Map<usize, Ask>) -> State
        decreases asks.dom().len(),
    {
        let now = dawn(asks);
        if asks.dom().finite() && later(asks, now).dom().len() < asks.dom().len() {
            self.drive(self.moment(s, arriving(asks, now), now), later(asks, now))
        } else {
            s
        }
    }

    /// The whole simulation. The end of the input is not a signal to launch: the timers
    /// that are already set ring as if the next arrival were far in the future.
    pub open spec fn run(self, asks: Map<usize, Ask>) -> State {
        self.advance(self.drive(State::start(), asks), u64::MAX, true)
    }
}

} // verus!
