//! Keeping count of a running search.
use vstd::prelude::*;

use crate::progress::CrackProgress;

verus! {

/// The state of the search as its surroundings know it.
#[derive(Clone, Debug, PartialEq, Eq)]
pub enum CrackerState {
    Idle,
    /// A search is to be started, and its seeds are to be written to this file too.
    Starting(Option<String>),
    Running,
}

/// What the state of the search asks for.
#[derive(Clone, Copy, Debug, PartialEq, Eq, Structural)]
pub enum PollAction {
    /// Nothing to listen to.
    Nothing,
    /// Start the search and listen to it.
    Start,
    /// Go on listening.
    KeepListening,
}

/// What the state of the search asks for.
pub fn poll_cracker(state: &CrackerState) -> (r: PollAction)
    ensures
        r == (match *state {
            CrackerState::Idle => PollAction::Nothing,
            CrackerState::Starting(_) => PollAction::Start,
            CrackerState::Running => PollAction::KeepListening,
        }),
{
    match state {
        CrackerState::Idle => PollAction::Nothing,
        CrackerState::Starting(_) => PollAction::Start,
        CrackerState::Running => PollAction::KeepListening,
    }
}

/// The signed number with the bits of an unsigned one.
pub open spec fn signed(num: u64) -> int {
    if num <= i64::MAX {
        num as int
    } else {
        num - 0x1_0000_0000_0000_0000
    }
}

/// The signed number with the bits of an unsigned one, in which form seeds are shown.
pub fn shown_seed(num: u64) -> (r: i64)
    ensures
        r == signed(num),
{
    proof {
        assert(num as i64 == if num <= 0x7FFF_FFFF_FFFF_FFFFu64 {
            num as int
        } else {
            num - 0x1_0000_0000_0000_0000
        }) by (bit_vector);
    }
    num as i64
}

/// What follows a report of the search.
#[derive(Clone, Debug, PartialEq, Eq)]
pub enum SessionAction {
    /// Hand out the progress and the seeds found since the last progress.
    Update(Vec<i64>),
    /// Write this seed down.
    Found(i64),
}

/// The number of seeds to search, from the length of a list of seeds: all seeds of 48 bits where
/// the list is empty.
pub open spec fn seeds_to_search(list_len: nat) -> int {
    if list_len == 0 {
        0x1_0000_0000_0000
    } else {
        list_len as int
    }
}

/// The number of seeds that are still to be searched.
pub open spec fn seeds_left(total: int, searched: int) -> int {
    if searched <= total {
        total - searched
    } else {
        0
    }
}

/// The account after one report, and what follows the report.
pub open spec fn recorded(
    before: CrackSession,
    event: CrackProgress,
    after: CrackSession,
    action: SessionAction,
) -> bool {
    &&& after.total_seeds == before.total_seeds
    &&& match event {
        CrackProgress::Progress(num) => {
            &&& action matches SessionAction::Update(seeds) && seeds@ == before.seeds@
            &&& after.seeds@ == Seq::<i64>::empty()
            &&& after.seeds_checked == before.seeds_checked + num
            &&& after.total_found == before.total_found
        },
        CrackProgress::Seed(num) => {
            &&& action matches SessionAction::Found(seed) && seed == signed(num)
            &&& after.seeds@ == before.seeds@.push(signed(num) as i64)
            &&& after.seeds_checked == before.seeds_checked
            &&& after.total_found == before.total_found + 1
        },
    }
}

/// The account of a search.
#[derive(Debug)]
pub struct CrackSession {
    pub total_seeds: u64,
    pub seeds_checked: u64,
    pub total_found: usize,
    /// The seeds found since the last progress, as they are shown.
    pub seeds: Vec<i64>,
}

impl CrackSession {
    /// The counters have room for the report.
    pub open spec fn has_room(self, event: CrackProgress) -> bool {
        match event {
            CrackProgress::Progress(num) => self.seeds_checked + num <= u64::MAX,
            CrackProgress::Seed(_) => self.total_found < usize::MAX,
        }
    }

    /// The account at the start of a search in a list of seeds, or in all seeds if the list is
    /// empty.
    pub fn new(seed_list: &[u64]) -> (r: Self)
        ensures
            r.total_seeds == seeds_to_search(seed_list@.len()),
            r.seeds_checked == 0,
            r.total_found == 0,
            r.seeds@ == Seq::<i64>::empty(),
    {
        let total_seeds: u64 = if seed_list.len() == 0 {
            0x1_0000_0000_0000
        } else {
            seed_list.len() as u64
        };
        CrackSession { total_seeds, seeds_checked: 0, total_found: 0, seeds: Vec::new() }
    }

    /// Whether the counters have room for a report.
    pub fn can_record(&self, event: &CrackProgress) -> (r: bool)
        ensures
            r == self.has_room(*event),
    {
        match *event {
            CrackProgress::Progress(num) => num <= u64::MAX - self.seeds_checked,
            CrackProgress::Seed(_) => self.total_found < usize::MAX,
        }
    }

    /// Takes a report of the search to account.
    pub fn record(&mut self, event: CrackProgress) -> (r: SessionAction)
        requires
            old(self).has_room(event),
        ensures
            recorded(*old(self), event, *final(self), r),
    {
        match event {
            CrackProgress::Progress(num) => {
                self.seeds_checked = self.seeds_checked + num;
                let mut seeds: Vec<i64> = Vec::new();
                std::mem::swap(&mut seeds, &mut self.seeds);
                SessionAction::Update(seeds)
            },
            CrackProgress::Seed(num) => {
                self.total_found = self.total_found + 1;
                let seed: i64 = shown_seed(num);
                self.seeds.push(seed);
                SessionAction::Found(seed)
            },
        }
    }

    /// The number of seeds that are still to be searched.
    pub fn remaining(&self) -> (r: u64)
        ensures
            r == seeds_left(self.total_seeds as int, self.seeds_checked as int),
    {
        self.total_seeds.saturating_sub(self.seeds_checked)
    }
}

} // verus!
