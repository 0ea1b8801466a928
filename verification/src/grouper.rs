//! The grouper: ticks to groups, one group per time frame that holds a tick.
//!
//! The first tick opens the first time frame at its own instant. A tick that
//! lies a whole width or more behind the start of the open time frame closes
//! it: the start moves on by whole widths until the tick falls inside, the
//! closed group is handed out, and the tick opens the next group. Time frames
//! without a tick give no group.
use crate::formatter::InputRow;
use crate::market::instant::Timestamp;
use crate::market::price::Price;
use crate::market::timeframe::TimeFrame;
use vstd::arithmetic::div_mod::lemma_fundamental_div_mod;
use vstd::arithmetic::div_mod::lemma_div_plus_one;
use vstd::prelude::*;

verus! {

/// What a group holds: the start of its time frame and its ticks in the
/// order in which they came.
pub struct Ticks {
    pub boundary: Timestamp,
    pub rows: Seq<InputRow>,
}

impl Ticks {
    /// Every tick of the group lies in the time frame of `width`
    /// milliseconds that starts at the group's boundary.
    pub open spec fn within(self, width: int) -> bool {
        forall|i: int|
            0 <= i < self.rows.len() ==> self.boundary.millis <= (#[trigger] self.rows[i]).datetime.millis
                < self.boundary.millis + width
    }
}

/// The ticks of one time frame, column by column.
#[derive(Debug, PartialEq)]
pub struct TickGroup {
    pub boundary: Timestamp,
    pub datetimes: Vec<Timestamp>,
    pub asks: Vec<Price>,
    pub bids: Vec<Price>,
}

impl View for TickGroup {
    type V = Ticks;

    open spec fn view(&self) -> Ticks {
        Ticks {
            boundary: self.boundary,
            rows: Seq::new(
                self.datetimes@.len(),
                |i: int| InputRow { datetime: self.datetimes@[i], ask: self.asks@[i], bid: self.bids@[i] },
            ),
        }
    }
}

impl TickGroup {
    /// The three columns have one entry per tick.
    pub open spec fn wf(&self) -> bool {
        self.datetimes@.len() == self.asks@.len() && self.datetimes@.len() == self.bids@.len()
    }

    /// An empty group for the time frame that starts at `boundary`.
    pub fn new(boundary: Timestamp) -> (group: TickGroup)
        ensures
            group.wf(),
            group@ == (Ticks { boundary: boundary, rows: Seq::empty() }),
    {
        let group = TickGroup { boundary: boundary, datetimes: Vec::new(), asks: Vec::new(), bids: Vec::new() };
        assert(group@.rows =~= Seq::empty());
        group
    }

    /// Clears the current contents and returns that contents in a new group.
    pub fn dump(&mut self) -> (group: TickGroup)
        ensures
            group.boundary == old(self).boundary,
            group.datetimes@ == old(self).datetimes@,
            group.asks@ == old(self).asks@,
            group.bids@ == old(self).bids@,
            final(self).boundary == old(self).boundary,
            final(self).datetimes@.len() == 0,
            final(self).asks@.len() == 0,
            final(self).bids@.len() == 0,
            group@ == old(self)@,
            final(self)@ == (Ticks { boundary: old(self).boundary, rows: Seq::empty() }),
    {
        let mut group = TickGroup::new(self.boundary);
        core::mem::swap(&mut self.datetimes, &mut group.datetimes);
        core::mem::swap(&mut self.asks, &mut group.asks);
        core::mem::swap(&mut self.bids, &mut group.bids);
        assert(group@.rows =~= old(self)@.rows);
        assert(self@.rows =~= Seq::empty());
        group
    }

    /// Appends one tick.
    pub fn push(&mut self, datetime: Timestamp, ask: Price, bid: Price)
        ensures
            final(self).boundary == old(self).boundary,
            final(self).datetimes@ == old(self).datetimes@.push(datetime),
            final(self).asks@ == old(self).asks@.push(ask),
            final(self).bids@ == old(self).bids@.push(bid),
            old(self).wf() ==> final(self).wf() && final(self)@ == (Ticks {
                boundary: old(self).boundary,
                rows: old(self)@.rows.push(InputRow { datetime: datetime, ask: ask, bid: bid }),
            }),
    {
        self.datetimes.push(datetime);
        self.asks.push(ask);
        self.bids.push(bid);
        proof {
            if old(self).wf() {
                assert(self@.rows =~= old(self)@.rows.push(InputRow { datetime: datetime, ask: ask, bid: bid }));
            }
        }
    }

    /// The number of ticks in the group.
    pub fn len(&self) -> (count: usize)
        ensures
            count == self@.rows.len(),
    {
        self.datetimes.len()
    }

    pub fn is_empty(&self) -> (empty: bool)
        ensures
            empty == (self@.rows.len() == 0),
    {
        self.len() == 0
    }
}

/// The start of the time frame that holds `instant`, reached from `boundary`
/// in steps of `width`: while a whole width or more lies between the
/// boundary and the instant, the boundary moves on by one width.
pub open spec fn advance(boundary: int, width: int, instant: int) -> int
    decreases instant - boundary,
    when width > 0
{
    if instant - boundary >= width {
        advance(boundary + width, width, instant)
    } else {
        boundary
    }
}

/// The boundary moves by whole widths, never back, and stops in the one time
/// frame that holds the instant.
pub proof fn lemma_advance(boundary: int, width: int, instant: int)
    requires
        width > 0,
        boundary <= instant,
    ensures
        advance(boundary, width, instant) == boundary + ((instant - boundary) / width) * width,
        boundary <= advance(boundary, width, instant) <= instant < advance(boundary, width, instant) + width,
        instant - boundary >= width ==> boundary + width <= advance(boundary, width, instant),
    decreases instant - boundary,
{
    let elapsed = instant - boundary;
    lemma_fundamental_div_mod(elapsed, width);
    if elapsed >= width {
        lemma_advance(boundary + width, width, instant);
        lemma_div_plus_one(elapsed - width, width);
        assert(((elapsed - width) / width) * width + width == (elapsed / width) * width) by (nonlinear_arith)
            requires
                (elapsed - width) / width + 1 == elapsed / width,
        ;
    } else {
        assert(elapsed / width == 0) by (nonlinear_arith)
            requires
                0 <= elapsed < width,
        ;
    }
}

/// The state of the grouper between two ticks.
pub struct GrouperState {
    /// The width of a time frame in milliseconds.
    pub width: int,
    /// The open group; `None` before the first tick.
    pub current: Option<Ticks>,
}

impl GrouperState {
    /// The state before the first tick.
    pub open spec fn start(width: int) -> GrouperState {
        GrouperState { width: width, current: None }
    }

    /// The state after one more tick.
    pub open spec fn next(self, row: InputRow) -> GrouperState {
        GrouperState { width: self.width, current: Some(self.open_after(row)) }
    }

    /// The open group after one more tick.
    pub open spec fn open_after(self, row: InputRow) -> Ticks {
        match self.current {
            None => Ticks { boundary: row.datetime, rows: seq![row] },
            Some(ticks) => if self.closes(row) {
                Ticks {
                    boundary: Timestamp {
                        millis: advance(
                            ticks.boundary.millis as int,
                            self.width,
                            row.datetime.millis as int,
                        ) as i64,
                    },
                    rows: seq![row],
                }
            } else {
                Ticks { boundary: ticks.boundary, rows: ticks.rows.push(row) }
            },
        }
    }

    /// The tick lies a whole width or more behind the start of the open
    /// time frame.
    pub open spec fn closes(self, row: InputRow) -> bool {
        match self.current {
            None => false,
            Some(ticks) => row.datetime.millis - ticks.boundary.millis >= self.width,
        }
    }

    /// The group that one more tick closes, if it closes one.
    pub open spec fn emitted(self, row: InputRow) -> Option<Ticks> {
        if self.closes(row) {
            self.current
        } else {
            None
        }
    }

    /// The state after a run of ticks.
    pub open spec fn after(self, rows: Seq<InputRow>) -> GrouperState
        decreases rows.len(),
    {
        if rows.len() == 0 {
            self
        } else {
            self.after(rows.drop_last()).next(rows.last())
        }
    }

    /// The groups that a run of ticks closes, in the order in which they are
    /// handed out.
    pub open spec fn closed(self, rows: Seq<InputRow>) -> Seq<Ticks>
        decreases rows.len(),
    {
        if rows.len() == 0 {
            Seq::empty()
        } else {
            let before = self.closed(rows.drop_last());
            match self.after(rows.drop_last()).emitted(rows.last()) {
                Some(ticks) => before.push(ticks),
                None => before,
            }
        }
    }

    /// The group that the end of the stream closes, if one is open.
    pub open spec fn remainder(self) -> Option<Ticks> {
        self.current
    }
}

/// All groups of a tick stream: those closed on the way, then the one that
/// is open at the end.
pub open spec fn grouped(width: int, rows: Seq<InputRow>) -> Seq<Ticks> {
    let start = GrouperState::start(width);
    match start.after(rows).remainder() {
        Some(ticks) => start.closed(rows).push(ticks),
        None => start.closed(rows),
    }
}

impl GrouperState {
    /// The width is positive and an open group holds a tick.
    pub open spec fn wf(self) -> bool {
        &&& self.width > 0
        &&& match self.current {
            Some(ticks) => ticks.rows.len() > 0,
            None => true,
        }
    }
}

/// What a vector of groups holds.
pub open spec fn contents(groups: Seq<TickGroup>) -> Seq<Ticks> {
    Seq::new(groups.len(), |i: int| groups[i]@)
}

/// Every group of the vector has its three columns aligned.
pub open spec fn aligned(groups: Seq<TickGroup>) -> bool {
    forall|i: int| 0 <= i < groups.len() ==> (#[trigger] groups[i]).wf()
}

/// The grouper as a machine that is fed tick by tick.
pub struct Grouper {
    width: i64,
    current: Option<TickGroup>,
}

impl View for Grouper {
    type V = GrouperState;

    closed spec fn view(&self) -> GrouperState {
        GrouperState {
            width: self.width as int,
            current: match self.current {
                Some(group) => Some(group@),
                None => None,
            },
        }
    }
}

impl Grouper {
    #[verifier::type_invariant]
    spec fn inv(self) -> bool {
        &&& self.width > 0
        &&& match self.current {
            Some(group) => group.wf() && group.datetimes@.len() > 0,
            None => true,
        }
    }

    /// A grouper for the time frame, before the first tick; `None` for a
    /// time frame that is not valid.
    pub fn new(time_frame: &TimeFrame) -> (made: Option<Grouper>)
        ensures
            match made {
                Some(grouper) => time_frame.valid() && grouper@ == GrouperState::start(time_frame.width()),
                None => !time_frame.valid(),
            },
    {
        match time_frame.millis() {
            Some(width) => Some(Grouper { width: width, current: None }),
            None => None,
        }
    }

    /// Takes one tick. Hands out the group that the tick closes, if it
    /// closes one.
    pub fn push(&mut self, row: InputRow) -> (emitted: Option<TickGroup>)
        ensures
            old(self)@.wf(),
            final(self)@.wf(),
            final(self)@ == old(self)@.next(row),
            match emitted {
                Some(group) => group.wf() && old(self)@.emitted(row) == Some(group@),
                None => old(self)@.emitted(row) is None,
            },
    {
        proof {
            use_type_invariant(&*self);
        }
        let width: i64 = self.width;
        let mut current: Option<TickGroup> = None;
        core::mem::swap(&mut self.current, &mut current);
        match current {
            None => {
                let mut group = TickGroup::new(row.datetime);
                group.push(row.datetime, row.ask, row.bid);
                assert(group@.rows =~= seq![row]);
                self.current = Some(group);
                None
            },
            Some(mut group) => {
                let boundary: i64 = group.boundary.millis;
                let elapsed: i128 = row.datetime.millis as i128 - boundary as i128;
                if elapsed >= width as i128 {
                    proof {
                        lemma_advance(boundary as int, width as int, row.datetime.millis as int);
                    }
                    let steps: i128 = elapsed / (width as i128);
                    let next: i128 = boundary as i128 + steps * (width as i128);
                    let mut fresh = TickGroup::new(Timestamp { millis: next as i64 });
                    fresh.push(row.datetime, row.ask, row.bid);
                    assert(fresh@.rows =~= seq![row]);
                    self.current = Some(fresh);
                    Some(group)
                } else {
                    group.push(row.datetime, row.ask, row.bid);
                    self.current = Some(group);
                    None
                }
            },
        }
    }

    /// Ends the stream. Hands out the open group, if there is one.
    pub fn finish(self) -> (emitted: Option<TickGroup>)
        ensures
            self@.wf(),
            match emitted {
                Some(group) => group.wf() && self@.remainder() == Some(group@),
                None => self@.remainder() is None,
            },
    {
        proof {
            use_type_invariant(&self);
        }
        self.current
    }
}

/// Groups a whole tick stream; `None` for a time frame that is not valid.
pub fn grouper(rows: &Vec<InputRow>, time_frame: &TimeFrame) -> (groups: Option<Vec<TickGroup>>)
    ensures
        match groups {
            Some(groups) => time_frame.valid() && aligned(groups@) && contents(groups@) == grouped(
                time_frame.width(),
                rows@,
            ),
            None => !time_frame.valid(),
        },
{
    let mut machine = match Grouper::new(time_frame) {
        Some(machine) => machine,
        None => { return None; },
    };
    let ghost start = GrouperState::start(time_frame.width());
    let mut groups: Vec<TickGroup> = Vec::new();
    let mut i: usize = 0;
    assert(rows@.take(0) =~= Seq::empty());
    assert(contents(groups@) =~= start.closed(rows@.take(0)));
    while i < rows.len()
        invariant
            0 <= i <= rows.len(),
            machine@ == start.after(rows@.take(i as int)),
            aligned(groups@),
            contents(groups@) == start.closed(rows@.take(i as int)),
        decreases rows.len() - i,
    {
        let ghost before = contents(groups@);
        assert(rows@.take(i + 1).drop_last() =~= rows@.take(i as int));
        assert(rows@.take(i + 1).last() == rows@[i as int]);
        match machine.push(rows[i]) {
            Some(group) => {
                groups.push(group);
                assert(contents(groups@) =~= before.push(group@));
            },
            None => {},
        }
        i += 1;
    }
    assert(rows@.take(i as int) =~= rows@);
    let ghost before = contents(groups@);
    match machine.finish() {
        Some(group) => {
            groups.push(group);
            assert(contents(groups@) =~= before.push(group@));
        },
        None => {},
    }
    Some(groups)
}

/// The ticks come in the order of their instants.
pub open spec fn non_decreasing(rows: Seq<InputRow>) -> bool {
    forall|i: int, j: int| 0 <= i <= j < rows.len() ==> rows[i].datetime.millis <= rows[j].datetime.millis
}

/// Every group lies in its time frame.
pub open spec fn all_within(groups: Seq<Ticks>, width: int) -> bool {
    forall|k: int| 0 <= k < groups.len() ==> (#[trigger] groups[k]).within(width)
}

/// The ticks of all groups, group after group.
pub open spec fn flatten(groups: Seq<Ticks>) -> Seq<InputRow>
    decreases groups.len(),
{
    if groups.len() == 0 {
        Seq::empty()
    } else {
        flatten(groups.drop_last()) + groups.last().rows
    }
}

/// The ticks of the open group, if one is open.
spec fn open_rows(state: GrouperState) -> Seq<InputRow> {
    match state.current {
        Some(ticks) => ticks.rows,
        None => Seq::empty(),
    }
}

/// The closed groups lie a width or more apart, and the open group a width
/// or more behind the last of them.
spec fn spaced(closed: Seq<Ticks>, state: GrouperState) -> bool {
    &&& forall|j: int, k: int|
        0 <= j < k < closed.len() ==> closed[j].boundary.millis + state.width <= closed[k].boundary.millis
    &&& match state.current {
        Some(ticks) => forall|j: int|
            0 <= j < closed.len() ==> (#[trigger] closed[j]).boundary.millis + state.width
                <= ticks.boundary.millis,
        None => closed.len() == 0,
    }
}

/// What holds of the machine after any run of ticks.
proof fn lemma_run(width: int, rows: Seq<InputRow>)
    requires
        width > 0,
    ensures
        ({
            let state = GrouperState::start(width).after(rows);
            let closed = GrouperState::start(width).closed(rows);
            &&& state.wf()
            &&& state.width == width
            &&& (state.current is None) == (rows.len() == 0)
            &&& (state.current matches Some(ticks) ==> ticks.rows.last() == rows.last())
            &&& (forall|k: int| 0 <= k < closed.len() ==> (#[trigger] closed[k]).rows.len() > 0)
            &&& flatten(closed) + open_rows(state) == rows
            &&& spaced(closed, state)
            &&& (rows.len() > 0 ==> rows[0].datetime == (if closed.len() > 0 {
                closed[0].boundary
            } else {
                state.current->Some_0.boundary
            }))
            &&& (non_decreasing(rows) ==> all_within(closed, width) && (state.current matches Some(ticks)
                ==> ticks.within(width)))
        }),
    decreases rows.len(),
{
    let start = GrouperState::start(width);
    if rows.len() == 0 {
        assert(flatten(start.closed(rows)) + open_rows(start.after(rows)) =~= rows);
    } else {
        let head = rows.drop_last();
        let row = rows.last();
        lemma_run(width, head);
        let before = start.after(head);
        let closed_before = start.closed(head);
        let state = start.after(rows);
        let closed = start.closed(rows);
        assert(state == before.next(row));
        if non_decreasing(rows) {
            assert(non_decreasing(head)) by {
                assert forall|i: int, j: int| 0 <= i <= j < head.len() implies head[i].datetime.millis
                    <= head[j].datetime.millis by {
                    assert(head[i] == rows[i] && head[j] == rows[j]);
                }
            }
        }
        match before.current {
            None => {
                assert(head =~= Seq::empty());
                assert(rows =~= seq![row]);
                assert(closed =~= Seq::empty());
                assert(flatten(closed) + open_rows(state) =~= rows);
            },
            Some(ticks) => {
                if before.closes(row) {
                    lemma_advance(ticks.boundary.millis as int, width, row.datetime.millis as int);
                    assert(closed == closed_before.push(ticks));
                    assert(closed.drop_last() =~= closed_before);
                    assert(flatten(closed) == flatten(closed_before) + ticks.rows);
                    assert(open_rows(state) =~= seq![row]);
                    assert(head + seq![row] =~= rows);
                    assert(flatten(closed) + open_rows(state) =~= rows);
                    assert(closed[0] == (if closed_before.len() > 0 {
                        closed_before[0]
                    } else {
                        ticks
                    }));
                } else {
                    assert(closed == closed_before);
                    assert(open_rows(state) =~= ticks.rows.push(row));
                    assert(head + seq![row] =~= rows);
                    assert(flatten(closed) + open_rows(state) =~= rows);
                    if non_decreasing(rows) {
                        let open = state.current->Some_0;
                        assert(rows[head.len() - 1] == head.last());
                        assert forall|i: int| 0 <= i < open.rows.len() implies open.boundary.millis <= (
                        #[trigger] open.rows[i]).datetime.millis < open.boundary.millis + width by {
                            if i < ticks.rows.len() {
                                assert(open.rows[i] == ticks.rows[i]);
                            } else {
                                assert(ticks.rows[ticks.rows.len() - 1] == ticks.rows.last());
                            }
                        }
                    }
                }
            },
        }
    }
}

/// Fed with ticks in the order of their instants, the grouper hands out no
/// group with a tick before the start of its time frame, nor with one at or
/// behind its end.
pub proof fn lemma_groups_lie_within_their_time_frames(width: int, rows: Seq<InputRow>)
    requires
        width > 0,
        non_decreasing(rows),
    ensures
        all_within(grouped(width, rows), width),
{
    lemma_run(width, rows);
}

/// The groups hold the ticks of the stream, each once and in the order in
/// which they came, and no group is empty.
pub proof fn lemma_groups_partition_the_stream(width: int, rows: Seq<InputRow>)
    requires
        width > 0,
    ensures
        flatten(grouped(width, rows)) == rows,
        forall|k: int| 0 <= k < grouped(width, rows).len() ==> (#[trigger] grouped(width, rows)[k]).rows.len() > 0,
        (rows.len() == 0) == (grouped(width, rows).len() == 0),
{
    lemma_run(width, rows);
    let start = GrouperState::start(width);
    match start.after(rows).remainder() {
        Some(ticks) => {
            assert(grouped(width, rows).drop_last() =~= start.closed(rows));
        },
        None => {
            assert(flatten(start.closed(rows)) + Seq::<InputRow>::empty() =~= flatten(start.closed(rows)));
        },
    }
}

/// The first time frame starts at the first tick, and each later group's
/// time frame starts a width or more behind the start of the one before.
pub proof fn lemma_boundaries_move_forward(width: int, rows: Seq<InputRow>)
    requires
        width > 0,
    ensures
        rows.len() > 0 ==> grouped(width, rows)[0].boundary == rows[0].datetime,
        forall|j: int, k: int|
            0 <= j < k < grouped(width, rows).len() ==> grouped(width, rows)[j].boundary.millis + width <= grouped(
                width,
                rows,
            )[k].boundary.millis,
{
    lemma_run(width, rows);
}

} // verus!
