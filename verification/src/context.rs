//! The conversation around each hit of a search: windows that meet are shown as
//! one run.
use vstd::prelude::*;

use crate::db::Message;
use crate::fetch::{self, FetchMessages, none_or_more};
use crate::order::{self, Ordered, Ranked, sort};
use crate::queries;
use crate::sql::Stored;

verus! {

/// How much of the conversation to show around each hit.
#[derive(Debug, Clone, Copy, PartialEq, Eq, Structural)]
pub struct Context {
    pub before: i64,
    pub after: i64,
}

impl Default for Context {
    fn default() -> (out: Self)
        ensures
            out == (Context { before: 0, after: 0 }),
    {
        Context { before: 0, after: 0 }
    }
}

impl Context {
    /// Some of the conversation is asked for.
    pub open spec fn asked_for(self) -> bool {
        self.before > 0 || self.after > 0
    }

    /// Whether any of the conversation is asked for.
    pub fn wanted(self) -> (yes: bool)
        ensures
            yes == self.asked_for(),
    {
        self.before > 0 || self.after > 0
    }
}

/// What is asked for of the conversation before a hit. Taken newest first, so
/// that a limit keeps the nearest ones rather than the oldest.
///
/// A width is a count of messages, and a negative count is not a smaller window
/// but a larger one: it would reach a query as no limit at all.
pub fn earlier_options<'a>(hit: &Message, context: Context) -> (out: FetchMessages<'a>)
    ensures
        out == (FetchMessages {
            chat_id: Some(hit.chat_id),
            after_date: None,
            after_rowid: None,
            before_rowid: Some(hit.rowid),
            query: None,
            person: None,
            limit: fetch::at_least_none(context.before as int) as i64,
            include_tapbacks: false,
            include_filtered: true,
            oldest_first: false,
        }),
        forall|ours: Seq<i64>, row: Stored|
            #[trigger] queries::selects(out, ours, row) <==> row.chat_id == hit.chat_id && row.rowid
                < hit.rowid && row.kind == Some(0int),
        forall|a: Stored, b: Stored|
            #[trigger] queries::comes_first(out, a, b) <==> a.rowid > b.rowid,
{
    FetchMessages {
        chat_id: Some(hit.chat_id),
        before_rowid: Some(hit.rowid),
        limit: none_or_more(context.before),
        include_filtered: true,
        ..FetchMessages::default()
    }
}

/// What is asked for of the conversation after a hit: one message more than
/// will be shown, which says whether the next window touches this one.
pub fn later_options<'a>(hit: &Message, context: Context) -> (out: FetchMessages<'a>)
    ensures
        out == (FetchMessages {
            chat_id: Some(hit.chat_id),
            after_date: None,
            after_rowid: Some(hit.rowid),
            before_rowid: None,
            query: None,
            person: None,
            limit: fetch::saturated(fetch::at_least_none(context.after as int) + 1) as i64,
            include_tapbacks: false,
            include_filtered: true,
            oldest_first: true,
        }),
        forall|ours: Seq<i64>, row: Stored|
            #[trigger] queries::selects(out, ours, row) <==> row.chat_id == hit.chat_id && row.rowid
                > hit.rowid && row.kind == Some(0int),
        forall|a: Stored, b: Stored|
            #[trigger] queries::comes_first(out, a, b) <==> a.rowid < b.rowid,
{
    let shown: i64 = none_or_more(context.after);
    let limit: i64 = if shown == i64::MAX {
        shown
    } else {
        shown + 1
    };
    FetchMessages {
        chat_id: Some(hit.chat_id),
        after_rowid: Some(hit.rowid),
        limit,
        include_filtered: true,
        oldest_first: true,
        ..FetchMessages::default()
    }
}

/// A hit, and what the conversation holds around it.
pub struct Surrounded {
    pub hit: Message,
    pub earlier: Vec<Message>,
    pub later: Vec<Message>,
}

/// Messages that follow one another in one conversation.
#[verifier::ext_equal]
pub struct Stretch {
    pub chat_id: i64,
    pub messages: Seq<Message>,
    /// The rowid of one message past the end, or of the last. Two stretches
    /// touch when nothing sits between them, and no rowid on its own can say
    /// that: rowids are global, so neighbours in one conversation are not
    /// neighbouring numbers.
    pub reach: int,
}

/// The rowid messages begin with.
pub open spec fn start(messages: Seq<Message>) -> int {
    if messages.len() > 0 {
        messages[0].rowid as int
    } else {
        0
    }
}

impl Ordered for Stretch {
    open spec fn before(&self, other: &Self) -> bool {
        self.chat_id < other.chat_id || (self.chat_id == other.chat_id && start(self.messages)
            < start(other.messages))
    }
}

/// The stretch around one hit, `after` messages past it at most.
pub open spec fn around(s: Surrounded, after: int) -> Stretch {
    let more = s.later@.len() > after;
    let shown = s.earlier@.push(s.hit) + (if more {
        s.later@.drop_last()
    } else {
        s.later@
    });
    Stretch {
        chat_id: s.hit.chat_id,
        messages: shown,
        reach: if more {
            s.later@.last().rowid as int
        } else {
            shown.last().rowid as int
        },
    }
}

/// Those of `messages` whose rowids are not in `known`.
pub open spec fn unknown(messages: Seq<Message>, known: Seq<Message>) -> Seq<Message>
    decreases messages.len(),
{
    if messages.len() == 0 {
        Seq::empty()
    } else if holds(known, messages.last().rowid) {
        unknown(messages.drop_last(), known)
    } else {
        unknown(messages.drop_last(), known).push(messages.last())
    }
}

/// A message with this rowid is among `messages`.
pub open spec fn holds(messages: Seq<Message>, rowid: i64) -> bool {
    exists|i: int| 0 <= i < messages.len() && (#[trigger] messages[i]).rowid == rowid
}

/// A message in order of arrival.
pub struct Arrival {
    pub message: Message,
}

impl Ordered for Arrival {
    open spec fn before(&self, other: &Self) -> bool {
        self.message.rowid < other.message.rowid
    }
}

impl Ranked for Arrival {
    fn is_before(&self, other: &Self) -> (yes: bool) {
        self.message.rowid < other.message.rowid
    }
}

/// `messages` as arrivals.
pub open spec fn arrivals(messages: Seq<Message>) -> Seq<Arrival> {
    Seq::new(messages.len(), |i: int| Arrival { message: messages[i] })
}

/// `messages` in order of arrival.
pub open spec fn by_arrival(messages: Seq<Message>) -> Seq<Message> {
    Seq::new(messages.len(), |i: int| order::stably(arrivals(messages))[i].message)
}

/// `run` with a stretch that meets it taken in: what it did not hold already,
/// in order of arrival.
pub open spec fn absorbed(run: Stretch, next: Stretch) -> Stretch {
    Stretch {
        chat_id: run.chat_id,
        messages: by_arrival(run.messages + unknown(next.messages, run.messages)),
        reach: if next.reach > run.reach {
            next.reach
        } else {
            run.reach
        },
    }
}

/// `next` overlaps `run` or touches it.
pub open spec fn meets(run: Stretch, next: Stretch) -> bool {
    run.chat_id == next.chat_id && start(next.messages) <= run.reach
}

/// Stretches, in order, with those that meet made one.
pub open spec fn merged(stretches: Seq<Stretch>) -> Seq<Stretch>
    decreases stretches.len(),
{
    if stretches.len() == 0 {
        Seq::empty()
    } else {
        let before = merged(stretches.drop_last());
        let next = stretches.last();
        if before.len() > 0 && meets(before.last(), next) {
            before.drop_last().push(absorbed(before.last(), next))
        } else {
            before.push(next)
        }
    }
}

/// A run of messages, by when it begins.
#[verifier::ext_equal]
pub struct Begun {
    pub messages: Seq<Message>,
}

impl Ordered for Begun {
    open spec fn before(&self, other: &Self) -> bool {
        start(self.messages) < start(other.messages)
    }
}

/// The runs, each from where it begins.
pub open spec fn begun(runs: Seq<Stretch>) -> Seq<Begun> {
    Seq::new(runs.len(), |i: int| Begun { messages: runs[i].messages })
}

/// The number of a run.
pub open spec fn numbered(k: int) -> i64 {
    fetch::saturated(k) as i64
}

/// A message of the `k`th run, marked if it is one of the hits.
pub open spec fn stamped(message: Message, k: int, hits: Seq<Surrounded>) -> Message {
    Message {
        matched: is_hit(hits, message.rowid),
        group: Some(numbered(k)),
        ..message
    }
}

/// A hit has this rowid.
pub open spec fn is_hit(hits: Seq<Surrounded>, rowid: i64) -> bool {
    exists|i: int| 0 <= i < hits.len() && (#[trigger] hits[i]).hit.rowid == rowid
}

/// The messages of a run, stamped.
pub open spec fn stamped_each(messages: Seq<Message>, k: int, hits: Seq<Surrounded>) -> Seq<
    Message,
> {
    Seq::new(messages.len(), |i: int| stamped(messages[i], k, hits))
}

/// The runs one after another, each message stamped with the number of its run.
pub open spec fn laid_out(runs: Seq<Begun>, hits: Seq<Surrounded>) -> Seq<Message>
    decreases runs.len(),
{
    if runs.len() == 0 {
        Seq::empty()
    } else {
        laid_out(runs.drop_last(), hits) + stamped_each(
            runs.last().messages,
            runs.len() - 1,
            hits,
        )
    }
}

/// The stretches around the hits.
pub open spec fn stretches(hits: Seq<Surrounded>, after: int) -> Seq<Stretch> {
    Seq::new(hits.len(), |i: int| around(hits[i], after))
}

/// The runs a search is shown as, in the order they begin.
pub open spec fn runs(hits: Seq<Surrounded>, after: int) -> Seq<Begun> {
    order::stably(begun(merged(order::stably(stretches(hits, after)))))
}

/// The hits alone.
pub open spec fn alone(hits: Seq<Surrounded>) -> Seq<Message> {
    Seq::new(hits.len(), |i: int| hits[i].hit)
}

/// What a search is shown as: the hits put back into the conversations they came
/// from, or the hits alone where no context is asked for.
pub open spec fn in_context(hits: Seq<Surrounded>, context: Context) -> Seq<Message> {
    if context.asked_for() {
        laid_out(runs(hits, fetch::at_least_none(context.after as int)), hits)
    } else {
        alone(hits)
    }
}

/// One hit and the messages around it.
struct Window {
    chat_id: i64,
    messages: Vec<Message>,
    reach: i64,
}

impl Window {
    /// The stretch this is.
    spec fn stretch(self) -> Stretch {
        Stretch {
            chat_id: self.chat_id,
            messages: self.messages@,
            reach: self.reach as int,
        }
    }
}

impl Ordered for Window {
    closed spec fn before(&self, other: &Self) -> bool {
        self.stretch().before(&other.stretch())
    }
}

impl Ranked for Window {
    fn is_before(&self, other: &Self) -> (yes: bool) {
        self.chat_id < other.chat_id || (self.chat_id == other.chat_id && first_rowid(
            &self.messages,
        ) < first_rowid(&other.messages))
    }
}

/// A finished run.
struct Run {
    messages: Vec<Message>,
}

impl Ordered for Run {
    closed spec fn before(&self, other: &Self) -> bool {
        start(self.messages@) < start(other.messages@)
    }
}

impl Ranked for Run {
    fn is_before(&self, other: &Self) -> (yes: bool) {
        first_rowid(&self.messages) < first_rowid(&other.messages)
    }
}

/// The rowid messages begin with.
fn first_rowid(messages: &Vec<Message>) -> (out: i64)
    ensures
        out == start(messages@),
{
    if messages.len() > 0 {
        messages[0].rowid
    } else {
        0
    }
}

/// The window around one hit.
fn window_around(s: Surrounded, after: i64) -> (out: Window)
    requires
        after >= 0,
    ensures
        out.stretch() == around(s, after as int),
{
    let ghost whole = s;
    let Surrounded { hit, earlier, later } = s;
    let chat_id: i64 = hit.chat_id;
    let mut messages = earlier;
    let mut later = later;
    messages.push(hit);
    let mut probe: Option<i64> = None;
    if later.len() as u64 > after as u64 {
        if let Some(past) = later.pop() {
            probe = Some(past.rowid);
        }
    }
    messages.append(&mut later);
    let reach: i64 = match probe {
        Some(rowid) => rowid,
        None => messages[messages.len() - 1].rowid,
    };
    assert(messages@ =~= around(whole, after as int).messages);
    Window { chat_id, messages, reach }
}

/// Whether a message with this rowid is among `messages`.
fn is_held(messages: &Vec<Message>, rowid: i64) -> (yes: bool)
    ensures
        yes == holds(messages@, rowid),
{
    for i in 0..messages.len()
        invariant
            forall|j: int| 0 <= j < i ==> (#[trigger] messages@[j]).rowid != rowid,
    {
        if messages[i].rowid == rowid {
            return true;
        }
    }
    false
}

/// Those of `messages` whose rowids are not in `known`.
fn not_in(messages: Vec<Message>, known: &Vec<Message>) -> (out: Vec<Message>)
    ensures
        out@ == unknown(messages@, known@),
{
    let ghost all = messages@;
    let mut out: Vec<Message> = Vec::new();
    for message in iter: messages
        invariant
            iter.seq() == all,
            out@ == unknown(all.take(iter.index() as int), known@),
    {
        proof {
            let upto = all.take(iter.index() as int + 1);
            assert(upto.drop_last() =~= all.take(iter.index() as int));
            assert(upto.last() == message);
        }
        if !is_held(known, message.rowid) {
            out.push(message);
        }
    }
    assert(all.take(all.len() as int) =~= all);
    out
}

/// `messages` in order of arrival.
fn sorted_by_arrival(messages: Vec<Message>) -> (out: Vec<Message>)
    ensures
        out@ == by_arrival(messages@),
{
    let ghost all = messages@;
    let mut list: Vec<Arrival> = Vec::new();
    for message in iter: messages
        invariant
            iter.seq() == all,
            list@ == arrivals(all).take(iter.index() as int),
    {
        let ghost n = iter.index() as int;
        list.push(Arrival { message });
        assert(list@ =~= arrivals(all).take(n + 1));
    }
    assert(arrivals(all).take(all.len() as int) =~= arrivals(all));
    let list = sort(list);
    let ghost sorted = list@;
    proof {
        order::sorting_keeps_everything(arrivals(all));
    }
    let mut out: Vec<Message> = Vec::new();
    for arrival in iter: list
        invariant
            iter.seq() == sorted,
            sorted == order::stably(arrivals(all)),
            sorted.len() == all.len(),
            out@ == by_arrival(all).take(iter.index() as int),
    {
        let ghost n = iter.index() as int;
        out.push(arrival.message);
        assert(out@ =~= by_arrival(all).take(n + 1));
    }
    assert(by_arrival(all).take(all.len() as int) =~= by_arrival(all));
    out
}

/// A run with a window that meets it taken in.
fn absorb(run: Window, next: Window) -> (out: Window)
    ensures
        out.stretch() == absorbed(run.stretch(), next.stretch()),
{
    let reach: i64 = if next.reach > run.reach {
        next.reach
    } else {
        run.reach
    };
    let mut fresh = not_in(next.messages, &run.messages);
    let mut messages = run.messages;
    messages.append(&mut fresh);
    Window { chat_id: run.chat_id, messages: sorted_by_arrival(messages), reach }
}

/// The stretches of these windows.
spec fn seen(windows: Seq<Window>) -> Seq<Stretch> {
    windows.map_values(|w: Window| w.stretch())
}

/// Windows, in order, with those that meet made one.
fn merge(windows: Vec<Window>) -> (out: Vec<Window>)
    ensures
        seen(out@) == merged(seen(windows@)),
{
    let ghost all = windows@;
    let mut out: Vec<Window> = Vec::new();
    assert(seen(out@) =~= merged(seen(all).take(0)));
    for next in iter: windows
        invariant
            iter.seq() == all,
            seen(out@) == merged(seen(all).take(iter.index() as int)),
    {
        let ghost n = iter.index() as int;
        let ghost before = seen(out@);
        let ghost was = out@;
        proof {
            let upto = seen(all).take(n + 1);
            assert(upto.drop_last() =~= seen(all).take(n));
            assert(upto.last() == next.stretch());
        }
        let mut joined = false;
        if out.len() > 0 {
            let last = &out[out.len() - 1];
            assert(before.last() == last.stretch());
            joined = last.chat_id == next.chat_id && first_rowid(&next.messages) <= last.reach;
        }
        if joined {
            if let Some(run) = out.pop() {
                assert(run == was.last());
                let whole = absorb(run, next);
                out.push(whole);
                assert(seen(out@) =~= before.drop_last().push(whole.stretch()));
            }
        } else {
            let ghost added = next.stretch();
            out.push(next);
            assert(seen(out@) =~= before.push(added));
        }
    }
    assert(seen(all).take(all.len() as int) =~= seen(all));
    out
}

/// Whether a message is one of the hits.
fn is_among(hits: &Vec<i64>, rowid: i64) -> (yes: bool)
    ensures
        yes == hits@.contains(rowid),
{
    for i in 0..hits.len()
        invariant
            forall|j: int| 0 <= j < i ==> hits@[j] != rowid,
    {
        if hits[i] == rowid {
            return true;
        }
    }
    false
}

/// Put each hit back into the conversation it came from.
///
/// Windows that meet are shown once rather than once per hit, so a stretch of
/// conversation with several hits in it reads as the one exchange it was. Which
/// messages are hits is decided up front: a message is one because the search
/// returned it, not because of which window it reached a run through.
pub fn with_context(hits: Vec<Surrounded>, context: Context) -> (out: Vec<Message>)
    ensures
        out@ == in_context(hits@, context),
{
    let ghost all = hits@;
    let after: i64 = none_or_more(context.after);
    if !context.wanted() {
        let mut out: Vec<Message> = Vec::new();
        for surrounded in iter: hits
            invariant
                iter.seq() == all,
                out@ == alone(all).take(iter.index() as int),
        {
            let ghost n = iter.index() as int;
            out.push(surrounded.hit);
            assert(out@ =~= alone(all).take(n + 1));
        }
        assert(alone(all).take(all.len() as int) =~= alone(all));
        return out;
    }
    let mut found: Vec<i64> = Vec::new();
    let mut windows: Vec<Window> = Vec::new();
    for surrounded in iter: hits
        invariant
            iter.seq() == all,
            after >= 0,
            found@.len() == iter.index(),
            forall|i: int| 0 <= i < found@.len() ==> #[trigger] found@[i] == all[i].hit.rowid,
            seen(windows@) == stretches(all, after as int).take(iter.index() as int),
    {
        let ghost n = iter.index() as int;
        let ghost before = windows@;
        found.push(surrounded.hit.rowid);
        let window = window_around(surrounded, after);
        let ghost added = window.stretch();
        windows.push(window);
        assert(seen(windows@) =~= seen(before).push(added));
        assert(seen(windows@) =~= stretches(all, after as int).take(n + 1));
    }
    let ghost given = windows@;
    assert(seen(given) =~= stretches(all, after as int));
    assert forall|rowid: i64| found@.contains(rowid) == #[trigger] is_hit(all, rowid) by {
        if found@.contains(rowid) {
            let i = choose|i: int| 0 <= i < found@.len() && found@[i] == rowid;
            assert(all[i].hit.rowid == rowid);
        }
        if is_hit(all, rowid) {
            let i = choose|i: int| 0 <= i < all.len() && (#[trigger] all[i]).hit.rowid == rowid;
            assert(found@[i] == rowid);
        }
    }
    let windows = sort(windows);
    proof {
        order::sorting_views(given, |w: Window| w.stretch());
    }
    let merged_windows = merge(windows);
    let ghost joined = merged_windows@;
    assert(seen(joined) == merged(order::stably(stretches(all, after as int))));
    let mut list: Vec<Run> = Vec::new();
    for window in iter: merged_windows
        invariant
            iter.seq() == joined,
            list@.len() == iter.index(),
            forall|i: int|
                0 <= i < list@.len() ==> (#[trigger] list@[i]).messages == joined[i].messages,
    {
        list.push(Run { messages: window.messages });
    }
    let ghost unsorted = list@;
    let ghost look = |r: Run| Begun { messages: r.messages@ };
    assert(unsorted.map_values(look) =~= begun(seen(joined)));
    let list = sort(list);
    let ghost sorted = list@;
    let total: usize = list.len();
    proof {
        order::sorting_views(unsorted, look);
    }
    let ghost shown = runs(all, after as int);
    assert(sorted.map_values(look) == shown);
    let mut out: Vec<Message> = Vec::new();
    let mut group: usize = 0;
    for run in iter: list
        invariant
            iter.seq() == sorted,
            group == iter.index(),
            total == sorted.len(),
            look == (|r: Run| Begun { messages: r.messages@ }),
            sorted.map_values(look) == shown,
            forall|rowid: i64| found@.contains(rowid) == #[trigger] is_hit(all, rowid),
            out@ == laid_out(shown.take(iter.index() as int), all),
    {
        let ghost n = iter.index() as int;
        let ghost before = out@;
        let ghost messages = run.messages@;
        proof {
            assert(sorted.map_values(look)[n] == look(run));
            assert(shown.take(n + 1).drop_last() =~= shown.take(n));
            assert(shown.take(n + 1).last().messages == messages);
        }
        let number: i64 = if group as u64 > i64::MAX as u64 {
            i64::MAX
        } else {
            group as i64
        };
        for message in inner: run.messages
            invariant
                inner.seq() == messages,
                number == numbered(n),
                forall|rowid: i64| found@.contains(rowid) == #[trigger] is_hit(all, rowid),
                out@ == before + stamped_each(messages, n, all).take(inner.index() as int),
        {
            let ghost m = inner.index() as int;
            let ghost was = message;
            let mut message = message;
            message.matched = is_among(&found, message.rowid);
            message.group = Some(number);
            assert(message == stamped(was, n, all));
            out.push(message);
            assert(out@ =~= before + stamped_each(messages, n, all).take(m + 1));
        }
        assert(stamped_each(messages, n, all).take(messages.len() as int) =~= stamped_each(
            messages,
            n,
            all,
        ));
        group += 1;
    }
    assert(shown.take(shown.len() as int) =~= shown);
    out
}

/// The rowids of messages.
pub open spec fn rowids(messages: Seq<Message>) -> Seq<i64> {
    messages.map_values(|m: Message| m.rowid)
}

proof fn held_rowids(messages: Seq<Message>, rowid: i64)
    ensures
        holds(messages, rowid) <==> rowids(messages).contains(rowid),
{
    if holds(messages, rowid) {
        let i = choose|i: int| 0 <= i < messages.len() && (#[trigger] messages[i]).rowid == rowid;
        assert(rowids(messages)[i] == rowid);
    }
    if rowids(messages).contains(rowid) {
        let i = choose|i: int| 0 <= i < messages.len() && rowids(messages)[i] == rowid;
        assert(messages[i].rowid == rowid);
    }
}

/// Putting messages in order of arrival keeps each of them.
proof fn arrival_keeps(messages: Seq<Message>)
    ensures
        rowids(by_arrival(messages)) == order::stably(rowids(messages)),
        rowids(by_arrival(messages)).to_multiset() == rowids(messages).to_multiset(),
        forall|i: int|
            0 <= i < messages.len() ==> messages.contains(#[trigger] by_arrival(messages)[i]),
{
    let list = arrivals(messages);
    let look = |a: Arrival| a.message.rowid;
    order::sorting_views(list, look);
    order::sorting_keeps_everything(list);
    order::sorting_keeps_everything(rowids(messages));
    assert(list.map_values(look) =~= rowids(messages));
    assert(order::stably(list).map_values(look) =~= rowids(by_arrival(messages)));
    assert forall|i: int| 0 <= i < messages.len() implies messages.contains(
        #[trigger] by_arrival(messages)[i],
    ) by {
        broadcast use vstd::seq_lib::group_to_multiset_ensures;

        let a = order::stably(list)[i];
        assert(order::stably(list).contains(a));
        assert(list.to_multiset().count(a) > 0);
        assert(list.contains(a));
        let j = choose|j: int| 0 <= j < list.len() && list[j] == a;
        assert(messages[j] == by_arrival(messages)[i]);
    }
}

proof fn arrival_holds(messages: Seq<Message>, rowid: i64)
    ensures
        holds(by_arrival(messages), rowid) <==> holds(messages, rowid),
{
    broadcast use vstd::seq_lib::group_to_multiset_ensures;

    arrival_keeps(messages);
    held_rowids(messages, rowid);
    held_rowids(by_arrival(messages), rowid);
    let a = rowids(messages);
    let b = rowids(by_arrival(messages));
    assert(a.contains(rowid) <==> a.to_multiset().count(rowid) > 0);
    assert(b.contains(rowid) <==> b.to_multiset().count(rowid) > 0);
}

proof fn appended_holds(a: Seq<Message>, b: Seq<Message>, rowid: i64)
    ensures
        holds(a + b, rowid) <==> holds(a, rowid) || holds(b, rowid),
{
    let both = a + b;
    if holds(a, rowid) {
        let i = choose|i: int| 0 <= i < a.len() && (#[trigger] a[i]).rowid == rowid;
        assert(both[i].rowid == rowid);
    }
    if holds(b, rowid) {
        let i = choose|i: int| 0 <= i < b.len() && (#[trigger] b[i]).rowid == rowid;
        assert(both[a.len() + i].rowid == rowid);
    }
    if holds(both, rowid) {
        let i = choose|i: int| 0 <= i < both.len() && (#[trigger] both[i]).rowid == rowid;
        if i < a.len() {
            assert(a[i].rowid == rowid);
        } else {
            assert(b[i - a.len()].rowid == rowid);
        }
    }
}

proof fn unknown_holds(messages: Seq<Message>, known: Seq<Message>, rowid: i64)
    ensures
        holds(unknown(messages, known), rowid) <==> holds(messages, rowid) && !holds(known, rowid),
    decreases messages.len(),
{
    if messages.len() > 0 {
        let rest = messages.drop_last();
        let last = messages.last();
        unknown_holds(rest, known, rowid);
        appended_holds(rest, seq![last], rowid);
        assert(rest + seq![last] =~= messages);
        let kept = unknown(rest, known);
        appended_holds(kept, seq![last], rowid);
        assert(kept + seq![last] =~= kept.push(last));
        assert(seq![last][0].rowid == last.rowid);
    }
}

proof fn absorbed_holds(run: Stretch, next: Stretch, rowid: i64)
    ensures
        holds(absorbed(run, next).messages, rowid) <==> holds(run.messages, rowid) || holds(
            next.messages,
            rowid,
        ),
{
    let fresh = unknown(next.messages, run.messages);
    arrival_holds(run.messages + fresh, rowid);
    appended_holds(run.messages, fresh, rowid);
    unknown_holds(next.messages, run.messages, rowid);
}

/// Merging drops nothing: what one of the stretches holds, one of the runs does.
proof fn merging_holds(all: Seq<Stretch>, k: int, rowid: i64) -> (r: int)
    requires
        0 <= k < all.len(),
        holds(all[k].messages, rowid),
    ensures
        0 <= r < merged(all).len(),
        holds(merged(all)[r].messages, rowid),
    decreases all.len(),
{
    let rest = all.drop_last();
    let before = merged(rest);
    let next = all.last();
    let out = merged(all);
    if before.len() > 0 && meets(before.last(), next) {
        absorbed_holds(before.last(), next, rowid);
        if k < rest.len() {
            let r = merging_holds(rest, k, rowid);
            if r < before.len() - 1 {
                assert(out[r] == before[r]);
            }
            r
        } else {
            out.len() - 1
        }
    } else if k < rest.len() {
        let r = merging_holds(rest, k, rowid);
        assert(out[r] == before[r]);
        r
    } else {
        out.len() - 1
    }
}

/// Where the `i`th message of the `k`th run is shown.
proof fn shown_at(all: Seq<Begun>, hits: Seq<Surrounded>, k: int, i: int) -> (j: int)
    requires
        0 <= k < all.len(),
        0 <= i < all[k].messages.len(),
    ensures
        0 <= j < laid_out(all, hits).len(),
        laid_out(all, hits)[j] == stamped(all[k].messages[i], k, hits),
    decreases all.len(),
{
    let before = laid_out(all.drop_last(), hits);
    if k == all.len() - 1 {
        assert(laid_out(all, hits)[before.len() + i] == stamped_each(
            all.last().messages,
            k,
            hits,
        )[i]);
        before.len() + i
    } else {
        let j = shown_at(all.drop_last(), hits, k, i);
        assert(laid_out(all, hits)[j] == before[j]);
        j
    }
}

/// Which message of which run the `j`th one shown is.
proof fn shown_from(all: Seq<Begun>, hits: Seq<Surrounded>, j: int) -> (at: (int, int))
    requires
        0 <= j < laid_out(all, hits).len(),
    ensures
        0 <= at.0 < all.len(),
        0 <= at.1 < all[at.0].messages.len(),
        laid_out(all, hits)[j] == stamped(all[at.0].messages[at.1], at.0, hits),
    decreases all.len(),
{
    let before = laid_out(all.drop_last(), hits);
    if j < before.len() {
        let at = shown_from(all.drop_last(), hits, j);
        assert(all.drop_last()[at.0] == all[at.0]);
        at
    } else {
        (all.len() - 1, j - before.len())
    }
}

/// Something in a sequence is somewhere in it once it is put in order.
proof fn sorted_position<T: Ordered>(items: Seq<T>, k: int) -> (r: int)
    requires
        0 <= k < items.len(),
    ensures
        0 <= r < order::stably(items).len(),
        order::stably(items)[r] == items[k],
{
    broadcast use vstd::seq_lib::group_to_multiset_ensures;

    order::sorting_keeps_everything(items);
    let sorted = order::stably(items);
    assert(items.contains(items[k]));
    assert(sorted.to_multiset().count(items[k]) > 0);
    assert(sorted.contains(items[k]));
    choose|r: int| 0 <= r < sorted.len() && sorted[r] == items[k]
}

/// Something in what was put in order was there before.
proof fn unsorted_position<T: Ordered>(items: Seq<T>, r: int) -> (k: int)
    requires
        0 <= r < order::stably(items).len(),
    ensures
        0 <= k < items.len(),
        order::stably(items)[r] == items[k],
{
    broadcast use vstd::seq_lib::group_to_multiset_ensures;

    order::sorting_keeps_everything(items);
    let sorted = order::stably(items);
    assert(sorted.contains(sorted[r]));
    assert(items.to_multiset().count(sorted[r]) > 0);
    assert(items.contains(sorted[r]));
    choose|k: int| 0 <= k < items.len() && items[k] == sorted[r]
}

/// A hit is always shown, and marked as one: a later hit does not lose its mark
/// to the context of an earlier one.
pub proof fn every_hit_is_shown_and_marked(
    hits: Seq<Surrounded>,
    context: Context,
    i: int,
) -> (j: int)
    requires
        0 <= i < hits.len(),
        context.asked_for(),
    ensures
        0 <= j < in_context(hits, context).len(),
        in_context(hits, context)[j].rowid == hits[i].hit.rowid,
        in_context(hits, context)[j].matched,
{
    let after = fetch::at_least_none(context.after as int);
    let rowid = hits[i].hit.rowid;
    let all = stretches(hits, after);
    let own = around(hits[i], after);
    assert(own.messages[hits[i].earlier@.len() as int] == hits[i].hit);
    let k = sorted_position(all, i);
    let inorder = order::stably(all);
    assert(inorder[k] == own);
    let r = merging_holds(inorder, k, rowid);
    let list = begun(merged(inorder));
    let s = sorted_position(list, r);
    let out = runs(hits, after);
    assert(out[s].messages == merged(inorder)[r].messages);
    let m = choose|m: int|
        0 <= m < out[s].messages.len() && (#[trigger] out[s].messages[m]).rowid == rowid;
    assert(is_hit(hits, rowid));
    shown_at(out, hits, s, m)
}

/// A message is marked as a hit exactly when the search returned it.
pub proof fn only_hits_are_marked(hits: Seq<Surrounded>, context: Context, j: int)
    requires
        context.asked_for(),
        0 <= j < in_context(hits, context).len(),
    ensures
        in_context(hits, context)[j].matched <==> is_hit(hits, in_context(hits, context)[j].rowid),
{
    let after = fetch::at_least_none(context.after as int);
    let at = shown_from(runs(hits, after), hits, j);
}

proof fn groups_are_bounded(all: Seq<Begun>, hits: Seq<Surrounded>, j: int)
    requires
        0 <= j < laid_out(all, hits).len(),
    ensures
        laid_out(all, hits)[j].group is Some,
        laid_out(all, hits)[j].group->0 <= numbered(all.len() - 1),
{
    let at = shown_from(all, hits, j);
}

proof fn groups_ascend(all: Seq<Begun>, hits: Seq<Surrounded>, i: int, j: int)
    requires
        0 <= i <= j < laid_out(all, hits).len(),
    ensures
        laid_out(all, hits)[i].group is Some,
        laid_out(all, hits)[j].group is Some,
        laid_out(all, hits)[i].group->0 <= laid_out(all, hits)[j].group->0,
    decreases all.len(),
{
    let before = laid_out(all.drop_last(), hits);
    if j < before.len() {
        groups_ascend(all.drop_last(), hits, i, j);
    } else {
        groups_are_bounded(all, hits, i);
    }
}

/// The messages of one run stand together.
pub proof fn a_run_stands_together(hits: Seq<Surrounded>, context: Context, i: int, j: int)
    requires
        context.asked_for(),
        0 <= i <= j < in_context(hits, context).len(),
    ensures
        in_context(hits, context)[i].group is Some,
        in_context(hits, context)[j].group is Some,
        in_context(hits, context)[i].group->0 <= in_context(hits, context)[j].group->0,
{
    let after = fetch::at_least_none(context.after as int);
    groups_ascend(runs(hits, after), hits, i, j);
}

proof fn unknown_is_part(messages: Seq<Message>, known: Seq<Message>)
    ensures
        rowids(messages).no_duplicates() ==> rowids(unknown(messages, known)).no_duplicates(),
        forall|i: int|
            0 <= i < unknown(messages, known).len() ==> messages.contains(
                #[trigger] unknown(messages, known)[i],
            ),
    decreases messages.len(),
{
    if messages.len() > 0 {
        let rest = messages.drop_last();
        let last = messages.last();
        let kept = unknown(rest, known);
        let out = unknown(messages, known);
        unknown_is_part(rest, known);
        assert forall|i: int| 0 <= i < out.len() implies messages.contains(#[trigger] out[i]) by {
            if i < kept.len() {
                assert(out[i] == kept[i]);
                assert(rest.contains(kept[i]));
                let at = choose|at: int| 0 <= at < rest.len() && rest[at] == kept[i];
                assert(messages[at] == out[i]);
            } else {
                assert(messages[messages.len() - 1] == out[i]);
            }
        }
        if rowids(messages).no_duplicates() {
            assert(rowids(rest) =~= rowids(messages).drop_last());
            let ids = rowids(out);
            assert forall|i: int, j: int| 0 <= i < j < ids.len() implies ids[i] != ids[j] by {
                if j < kept.len() {
                    assert(rowids(kept)[i] == ids[i] && rowids(kept)[j] == ids[j]);
                } else {
                    assert(rest.contains(kept[i]));
                    let at = choose|at: int| 0 <= at < rest.len() && rest[at] == kept[i];
                    assert(rowids(messages)[at] == ids[i]);
                    assert(rowids(messages)[messages.len() - 1] == ids[j]);
                }
            }
        }
    }
}

proof fn absorbing_repeats_nothing(run: Stretch, next: Stretch)
    requires
        rowids(run.messages).no_duplicates(),
        rowids(next.messages).no_duplicates(),
    ensures
        rowids(absorbed(run, next).messages).no_duplicates(),
{
    let fresh = unknown(next.messages, run.messages);
    let both = run.messages + fresh;
    unknown_is_part(next.messages, run.messages);
    let ids = rowids(both);
    assert forall|i: int, j: int| 0 <= i < j < ids.len() implies ids[i] != ids[j] by {
        let n = run.messages.len() as int;
        if j < n {
            assert(rowids(run.messages)[i] == ids[i] && rowids(run.messages)[j] == ids[j]);
        } else if i >= n {
            assert(rowids(fresh)[i - n] == ids[i] && rowids(fresh)[j - n] == ids[j]);
        } else {
            unknown_holds(next.messages, run.messages, ids[j]);
            assert(fresh[j - n].rowid == ids[j]);
            assert(holds(fresh, ids[j]));
            assert(run.messages[i].rowid == ids[i]);
            if ids[i] == ids[j] {
                assert(holds(run.messages, ids[j]));
            }
        }
    }
    arrival_keeps(both);
    let out = rowids(by_arrival(both));
    ids.lemma_multiset_has_no_duplicates();
    assert forall|x: i64| out.to_multiset().contains(x) implies out.to_multiset().count(x)
        == 1 by {
        assert(ids.to_multiset().contains(x));
    }
    out.lemma_multiset_has_no_duplicates_conv();
}

proof fn merging_repeats_nothing(all: Seq<Stretch>)
    requires
        forall|k: int|
            0 <= k < all.len() ==> rowids((#[trigger] all[k]).messages).no_duplicates(),
    ensures
        forall|r: int|
            0 <= r < merged(all).len() ==> rowids(
                (#[trigger] merged(all)[r]).messages,
            ).no_duplicates(),
    decreases all.len(),
{
    if all.len() > 0 {
        let rest = all.drop_last();
        assert forall|k: int| 0 <= k < rest.len() implies rowids(
            (#[trigger] rest[k]).messages,
        ).no_duplicates() by {
            assert(rest[k] == all[k]);
        }
        merging_repeats_nothing(rest);
        let before = merged(rest);
        let next = all.last();
        assert(next == all[all.len() - 1]);
        if before.len() > 0 && meets(before.last(), next) {
            assert(before.last() == before[before.len() - 1]);
            absorbing_repeats_nothing(before.last(), next);
        }
        let out = merged(all);
        assert forall|r: int| 0 <= r < out.len() implies rowids(
            (#[trigger] out[r]).messages,
        ).no_duplicates() by {
            if r < out.len() - 1 {
                assert(out[r] == before[r]);
            }
        }
    }
}

/// A stretch of conversation with several hits in it is shown once rather than
/// once per hit: no run shows a message twice.
pub proof fn no_run_repeats_a_message(hits: Seq<Surrounded>, after: int)
    requires
        forall|i: int|
            0 <= i < hits.len() ==> rowids(
                around(#[trigger] hits[i], after).messages,
            ).no_duplicates(),
    ensures
        forall|k: int|
            0 <= k < runs(hits, after).len() ==> rowids(
                (#[trigger] runs(hits, after)[k]).messages,
            ).no_duplicates(),
{
    let all = stretches(hits, after);
    let inorder = order::stably(all);
    assert forall|k: int| 0 <= k < inorder.len() implies rowids(
        (#[trigger] inorder[k]).messages,
    ).no_duplicates() by {
        let i = unsorted_position(all, k);
        assert(inorder[k] == around(hits[i], after));
    }
    merging_repeats_nothing(inorder);
    let list = begun(merged(inorder));
    let out = runs(hits, after);
    assert forall|k: int| 0 <= k < out.len() implies rowids(
        (#[trigger] out[k]).messages,
    ).no_duplicates() by {
        let r = unsorted_position(list, k);
        assert(out[k].messages == merged(inorder)[r].messages);
    }
}

/// Every message of a stretch is of its conversation.
pub open spec fn of_one_chat(s: Stretch) -> bool {
    forall|i: int| 0 <= i < s.messages.len() ==> (#[trigger] s.messages[i]).chat_id == s.chat_id
}

proof fn merging_mixes_nothing(all: Seq<Stretch>)
    requires
        forall|k: int| 0 <= k < all.len() ==> of_one_chat(#[trigger] all[k]),
    ensures
        forall|r: int| 0 <= r < merged(all).len() ==> of_one_chat(#[trigger] merged(all)[r]),
    decreases all.len(),
{
    if all.len() > 0 {
        let rest = all.drop_last();
        assert forall|k: int| 0 <= k < rest.len() implies of_one_chat(#[trigger] rest[k]) by {
            assert(rest[k] == all[k]);
        }
        merging_mixes_nothing(rest);
        let before = merged(rest);
        let next = all.last();
        assert(next == all[all.len() - 1]);
        let out = merged(all);
        if before.len() > 0 && meets(before.last(), next) {
            let run = before.last();
            assert(run == before[before.len() - 1]);
            let fresh = unknown(next.messages, run.messages);
            let both = run.messages + fresh;
            unknown_is_part(next.messages, run.messages);
            arrival_keeps(both);
            let whole = absorbed(run, next);
            assert forall|i: int| 0 <= i < whole.messages.len() implies (
            #[trigger] whole.messages[i]).chat_id == whole.chat_id by {
                assert(both.contains(by_arrival(both)[i]));
                let at = choose|at: int| 0 <= at < both.len() && both[at] == by_arrival(both)[i];
                if at < run.messages.len() {
                    assert(run.messages[at].chat_id == run.chat_id);
                } else {
                    assert(next.messages.contains(fresh[at - run.messages.len()]));
                }
            }
        }
        assert forall|r: int| 0 <= r < out.len() implies of_one_chat(#[trigger] out[r]) by {
            if r < out.len() - 1 {
                assert(out[r] == before[r]);
            }
        }
    }
}

/// A run is a stretch of one conversation: windows of different ones are never
/// put together.
pub proof fn a_run_is_of_one_conversation(hits: Seq<Surrounded>, after: int, k: int)
    requires
        forall|i: int| 0 <= i < hits.len() ==> of_one_chat(around(#[trigger] hits[i], after)),
        0 <= k < runs(hits, after).len(),
    ensures
        forall|i: int, j: int|
            #![trigger runs(hits, after)[k].messages[i], runs(hits, after)[k].messages[j]]
            0 <= i < runs(hits, after)[k].messages.len() && 0 <= j < runs(
                hits,
                after,
            )[k].messages.len() ==> runs(hits, after)[k].messages[i].chat_id == runs(
                hits,
                after,
            )[k].messages[j].chat_id,
{
    let all = stretches(hits, after);
    let inorder = order::stably(all);
    assert forall|m: int| 0 <= m < inorder.len() implies of_one_chat(#[trigger] inorder[m]) by {
        let i = unsorted_position(all, m);
        assert(inorder[m] == around(hits[i], after));
    }
    merging_mixes_nothing(inorder);
    let r = unsorted_position(begun(merged(inorder)), k);
    assert(runs(hits, after)[k].messages == merged(inorder)[r].messages);
    assert(of_one_chat(merged(inorder)[r]));
}

/// What is shown around a hit is all that came before it and no more than were asked for
/// of what came after, from the nearest on; the one more that was looked at only says how
/// far nothing lies between.
pub proof fn a_window_is_as_wide_as_asked(s: Surrounded, after: int)
    requires
        after >= 0,
        s.later@.len() <= after + 1,
    ensures
        around(s, after).chat_id == s.hit.chat_id,
        s.later@.len() <= after ==> around(s, after).messages == s.earlier@.push(s.hit) + s.later@,
        s.later@.len() > after ==> around(s, after).messages == s.earlier@.push(s.hit)
            + s.later@.take(after) && around(s, after).reach == s.later@[after].rowid,
        s.later@.len() <= after ==> around(s, after).reach == (if s.later@.len() > 0 {
            s.later@.last().rowid
        } else {
            s.hit.rowid
        }),
{
    if s.later@.len() > after {
        assert(s.later@.drop_last() =~= s.later@.take(after));
    }
}

/// Everything within the width of a hit is shown: what came before it, and as many after
/// it as were asked for.
pub proof fn what_surrounds_a_hit_is_shown(
    hits: Seq<Surrounded>,
    context: Context,
    i: int,
    rowid: i64,
) -> (j: int)
    requires
        0 <= i < hits.len(),
        context.asked_for(),
        context.after >= 0,
        hits[i].later@.len() <= context.after + 1,
        holds(hits[i].earlier@, rowid) || holds(
            nearest(hits[i].later@, context.after as int),
            rowid,
        ),
    ensures
        0 <= j < in_context(hits, context).len(),
        in_context(hits, context)[j].rowid == rowid,
{
    let after = context.after as int;
    let all = stretches(hits, after);
    let own = around(hits[i], after);
    let front = hits[i].earlier@.push(hits[i].hit);
    let behind = nearest(hits[i].later@, after);
    a_window_is_as_wide_as_asked(hits[i], after);
    assert(own.messages =~= front + behind);
    appended_holds(front, behind, rowid);
    appended_holds(hits[i].earlier@, seq![hits[i].hit], rowid);
    assert(front =~= hits[i].earlier@ + seq![hits[i].hit]);
    let k = sorted_position(all, i);
    let inorder = order::stably(all);
    assert(inorder[k] == own);
    let r = merging_holds(inorder, k, rowid);
    let list = begun(merged(inorder));
    let s = sorted_position(list, r);
    let out = runs(hits, after);
    assert(out[s].messages == merged(inorder)[r].messages);
    let m = choose|m: int|
        0 <= m < out[s].messages.len() && (#[trigger] out[s].messages[m]).rowid == rowid;
    shown_at(out, hits, s, m)
}

/// The first few of some messages.
pub open spec fn nearest(messages: Seq<Message>, n: int) -> Seq<Message> {
    if messages.len() > n {
        messages.take(n)
    } else {
        messages
    }
}

/// A window that begins no later than another of its conversation reaches is joined to
/// it, and no other is.
pub proof fn windows_that_touch_are_joined(all: Seq<Stretch>, next: Stretch)
    requires
        all.len() > 0,
    ensures
        merged(all).len() > 0,
        merged(all).last().chat_id == next.chat_id && start(next.messages) <= merged(
            all,
        ).last().reach ==> merged(all.push(next)).len() == merged(all).len() && merged(
            all.push(next),
        ).last().reach >= merged(all).last().reach && merged(all.push(next)).last().reach
            >= next.reach,
        merged(all).last().chat_id != next.chat_id || start(next.messages) > merged(
            all,
        ).last().reach ==> merged(all.push(next)) == merged(all).push(next),
    decreases all.len(),
{
    assert(all.push(next).drop_last() =~= all);
    assert(all.push(next).last() == next);
    if all.len() > 1 {
        windows_that_touch_are_joined(all.drop_last(), all.last());
        assert(all.drop_last().push(all.last()) =~= all);
    } else {
        assert(merged(all.drop_last()).len() == 0);
    }
}

/// What is joined reads in order of arrival.
pub proof fn a_joined_run_reads_in_order(run: Stretch, next: Stretch, i: int, j: int)
    requires
        0 <= i < j < absorbed(run, next).messages.len(),
    ensures
        absorbed(run, next).messages[i].rowid <= absorbed(run, next).messages[j].rowid,
{
    let all = run.messages + unknown(next.messages, run.messages);
    let list = arrivals(all);
    order::sorting_orders(list);
    order::sorting_keeps_everything(list);
    assert(!order::stably(list)[j].before(&order::stably(list)[i]));
}

/// The runs are shown in the order they begin.
pub proof fn runs_are_shown_as_they_begin(hits: Seq<Surrounded>, after: int, i: int, j: int)
    requires
        0 <= i < j < runs(hits, after).len(),
    ensures
        start(runs(hits, after)[i].messages) <= start(runs(hits, after)[j].messages),
{
    let list = begun(merged(order::stably(stretches(hits, after))));
    order::sorting_orders(list);
    assert(!order::stably(list)[j].before(&order::stably(list)[i]));
}

/// Where no context is asked for a search is shown as its hits, each as it was found.
pub proof fn without_context_hits_stand_alone(hits: Seq<Surrounded>, i: int)
    requires
        0 <= i < hits.len(),
    ensures
        in_context(hits, Context { before: 0, after: 0 }).len() == hits.len(),
        in_context(hits, Context { before: 0, after: 0 })[i] == hits[i].hit,
{
}

/// Runs are numbered from nought in the order they are shown, and a message of a run is
/// shown as it is but for that number and its mark.
pub proof fn a_message_is_shown_in_its_run(
    hits: Seq<Surrounded>,
    context: Context,
    k: int,
    i: int,
) -> (j: int)
    requires
        context.asked_for(),
        0 <= k < runs(hits, fetch::at_least_none(context.after as int)).len(),
        k <= i64::MAX,
        0 <= i < runs(hits, fetch::at_least_none(context.after as int))[k].messages.len(),
    ensures
        0 <= j < in_context(hits, context).len(),
        in_context(hits, context)[j].group is Some,
        in_context(hits, context)[j].group->0 == k,
        ({
            let shown = in_context(hits, context)[j];
            let message = runs(hits, fetch::at_least_none(context.after as int))[k].messages[i];
            &&& shown.rowid == message.rowid
            &&& shown.body == message.body
            &&& shown.sender == message.sender
            &&& shown.date == message.date
            &&& shown.chat_name == message.chat_name
        }),
{
    shown_at(runs(hits, fetch::at_least_none(context.after as int)), hits, k, i)
}

} // verus!
