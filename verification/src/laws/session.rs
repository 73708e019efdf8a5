//! What holds of the account of a search.
use vstd::prelude::*;

use crate::progress::CrackProgress;
use crate::session;
use crate::session::CrackSession;
use crate::session::SessionAction;

verus! {

/// The seeds that an action hands out.
pub open spec fn handed_out(action: SessionAction) -> Seq<i64> {
    match action {
        SessionAction::Update(seeds) => seeds@,
        SessionAction::Found(_) => Seq::empty(),
    }
}

/// The seeds that actions hand out, one after the other.
pub open spec fn all_handed_out(actions: Seq<SessionAction>) -> Seq<i64>
    decreases actions.len(),
{
    if actions.len() == 0 {
        Seq::empty()
    } else {
        all_handed_out(actions.drop_last()) + handed_out(actions.last())
    }
}

/// The seeds among reports, as they are shown.
pub open spec fn seeds_of(events: Seq<CrackProgress>) -> Seq<i64>
    decreases events.len(),
{
    if events.len() == 0 {
        Seq::empty()
    } else {
        match events.last() {
            CrackProgress::Seed(num) => seeds_of(events.drop_last()).push(
                session::signed(num) as i64,
            ),
            CrackProgress::Progress(_) => seeds_of(events.drop_last()),
        }
    }
}

/// The sum of the progress among reports.
pub open spec fn progress_of(events: Seq<CrackProgress>) -> int
    decreases events.len(),
{
    if events.len() == 0 {
        0
    } else {
        progress_of(events.drop_last()) + match events.last() {
            CrackProgress::Seed(_) => 0,
            CrackProgress::Progress(num) => num as int,
        }
    }
}

/// No seed is lost and none is handed out twice: after any reports, the seeds handed out, followed
/// by those that wait, are the seeds reported, in their order. The counters count what was
/// reported.
pub proof fn law_every_seed_is_handed_out_once(
    states: Seq<CrackSession>,
    events: Seq<CrackProgress>,
    actions: Seq<SessionAction>,
)
    requires
        states.len() == events.len() + 1,
        actions.len() == events.len(),
        states[0].seeds@.len() == 0,
        states[0].seeds_checked == 0,
        states[0].total_found == 0,
        forall|i: int|
            0 <= i < events.len() ==> session::recorded(
                states[i],
                #[trigger] events[i],
                states[i + 1],
                actions[i],
            ),
    ensures
        all_handed_out(actions) + states.last().seeds@ == seeds_of(events),
        states.last().total_found == seeds_of(events).len(),
        states.last().seeds_checked == progress_of(events),
    decreases events.len(),
{
    if events.len() == 0 {
        assert(states.last() == states[0]);
        assert(states.last().seeds@ == Seq::<i64>::empty());
    } else {
        let n = events.len() - 1;
        let s = states.drop_last();
        let e = events.drop_last();
        let a = actions.drop_last();
        assert forall|i: int| 0 <= i < e.len() implies session::recorded(
            s[i],
            #[trigger] e[i],
            s[i + 1],
            a[i],
        ) by {
            assert(e[i] == events[i]);
        }
        law_every_seed_is_handed_out_once(s, e, a);
        assert(session::recorded(states[n], events[n], states[n + 1], actions[n]));
        assert(s.last() == states[n]);
        assert(all_handed_out(actions) + states.last().seeds@ == seeds_of(events));
    }
}

/// A seed is shown as the signed 64-bit number with the same bits: they differ by a multiple of
/// 2^64.
pub proof fn law_shown_seeds_have_the_same_bits(num: u64)
    ensures
        -9223372036854775808 <= session::signed(num) <= 9223372036854775807,
        (num - session::signed(num)) % 18446744073709551616 == 0,
{
}

/// Counters have room for a report unless they would leave their type.
pub proof fn law_counters_are_refused_only_for_overflow(account: CrackSession, num: u64)
    ensures
        account.has_room(CrackProgress::Progress(num)) <==> account.seeds_checked + num
            <= 18446744073709551615,
        account.has_room(CrackProgress::Seed(num)) <==> account.total_found + 1 <= usize::MAX,
{
}

/// A found seed is written down as it is shown, and counted; progress is added up and hands out the
/// seeds that wait. Neither changes how many seeds there are to search.
pub proof fn law_reports_are_answered(
    before: CrackSession,
    after: CrackSession,
    action: SessionAction,
    num: u64,
)
    ensures
        session::recorded(before, CrackProgress::Seed(num), after, action) ==> {
            &&& action == SessionAction::Found(session::signed(num) as i64)
            &&& after.seeds@ == before.seeds@ + seq![session::signed(num) as i64]
            &&& after.total_found == before.total_found + 1
            &&& after.seeds_checked == before.seeds_checked
            &&& after.total_seeds == before.total_seeds
        },
        session::recorded(before, CrackProgress::Progress(num), after, action) ==> {
            &&& action is Update
            &&& handed_out(action) == before.seeds@
            &&& after.seeds@.len() == 0
            &&& after.total_found == before.total_found
            &&& after.seeds_checked == before.seeds_checked + num
            &&& after.total_seeds == before.total_seeds
        },
{
}

/// A search without a list looks at 2^48 seeds and one in a list at as many as the list holds. What
/// was searched and what is left make up the whole, until everything was searched.
pub proof fn law_seeds_are_searched_or_left(list_len: nat, total: int, searched: int)
    requires
        0 <= searched,
        0 <= total,
    ensures
        session::seeds_to_search(0) == 281474976710656,
        list_len > 0 ==> session::seeds_to_search(list_len) == list_len,
        searched <= total ==> searched + session::seeds_left(total, searched) == total,
        searched > total ==> session::seeds_left(total, searched) == 0,
{
}

} // verus!
