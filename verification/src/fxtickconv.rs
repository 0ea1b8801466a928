//! The converter as a whole: its settings, and the run from ticks to rows.
use crate::converter::bar_of;
use crate::converter::column_structure;
use crate::converter::convert;
use crate::converter::fault;
use crate::converter::high_at;
use crate::converter::low_at;
use crate::converter::processed;
use crate::converter::lemma_processed;
use crate::converter::asks_of;
use crate::converter::bids_of;
use crate::converter::side;
use crate::converter::structure_of;
use crate::converter::Bar;
use crate::converter::ConvertError;
use crate::converter::Row;
use crate::formatter::calendar;
use crate::formatter::formatted;
use crate::formatter::formatter;
use crate::formatter::Fault;
use crate::formatter::FormatError;
use crate::formatter::InputRow;
use crate::formatter::TickDescription;
use crate::formatter::COMMA;
use crate::fxconv::AskBid;
use crate::fxconv::AskBidOption;
use crate::grouper::aligned;
use crate::grouper::contents;
use crate::grouper::grouped;
use crate::grouper::grouper;
use crate::grouper::lemma_groups_partition_the_stream;
use crate::grouper::Ticks;
use crate::line_producer::line_producer;
use crate::line_producer::lines_of;
use crate::line_producer::LINE_FEED;
use crate::market::price::Price;
use crate::market::timeframe::TimeFrame;
use crate::market::timeframe::TimeUnit;
use crate::settings::ask_bid;
use crate::settings::choice_of;
use crate::settings::layout_of;
use crate::settings::tick;
use crate::settings::time_frame;
use crate::settings::time_frame_of;
use crate::settings::SettingError;
use crate::text::split;
use vstd::prelude::*;
use vstd::string::*;

verus! {

/// The output rows of the first `n` groups, or the first fault among them.
pub open spec fn bars(groups: Seq<Ticks>, structure: Seq<AskBid>, n: int) -> Result<Seq<Bar>, ConvertError>
    decreases n,
{
    if n <= 0 {
        Ok(Seq::empty())
    } else {
        match bars(groups, structure, n - 1) {
            Err(error) => Err(error),
            Ok(before) => match bar_of(groups[n - 1], structure) {
                Err(error) => Err(error),
                Ok(bar) => Ok(before.push(bar)),
            },
        }
    }
}

/// The output rows of a tick stream: one for each of its groups.
pub open spec fn converted(width: int, structure: Seq<AskBid>, rows: Seq<InputRow>) -> Result<
    Seq<Bar>,
    ConvertError,
> {
    bars(grouped(width, rows), structure, grouped(width, rows).len() as int)
}

/// What a vector of output rows holds.
pub open spec fn shown(rows: Seq<Row>) -> Seq<Bar> {
    Seq::new(rows.len(), |i: int| rows[i]@)
}

/// The outcome of a run, as plain values.
pub open spec fn run_outcome(made: Result<Vec<Row>, ConvertError>) -> Result<Seq<Bar>, ConvertError> {
    match made {
        Ok(out) => Ok(shown(out@)),
        Err(error) => Err(error),
    }
}

/// The outcome of reading a text, as plain values.
pub open spec fn read_outcome(read: Result<Vec<InputRow>, FormatError>) -> Result<Seq<InputRow>, Fault> {
    match read {
        Ok(rows) => Ok(rows@),
        Err(error) => Err(error@),
    }
}

/// The numbers that were looked up for the fields of a line.
pub open spec fn numbers_of(numbers: Seq<Vec<Option<Price>>>, i: int) -> Seq<Option<Price>> {
    if 0 <= i < numbers.len() {
        numbers[i]@
    } else {
        Seq::empty()
    }
}

/// The ticks of the first `n` lines, or the fault of the first line that
/// gives none.
pub open spec fn ticks_of(
    lines: Seq<(int, Seq<u8>)>,
    layout: Seq<TickDescription>,
    numbers: Seq<Vec<Option<Price>>>,
    n: int,
) -> Result<Seq<InputRow>, Fault>
    decreases n,
{
    if n <= 0 {
        Ok(Seq::empty())
    } else {
        match ticks_of(lines, layout, numbers, n - 1) {
            Err(fault) => Err(fault),
            Ok(before) => match formatted(
                lines[n - 1].0 as usize,
                lines[n - 1].1,
                layout,
                numbers_of(numbers, n - 1),
                calendar(split(lines[n - 1].1, COMMA), layout),
            ) {
                Err(fault) => Err(fault),
                Ok(row) => Ok(before.push(row)),
            },
        }
    }
}

/// The ticks of a text: one for each of its lines that is not blank.
pub open spec fn read_of(text: Seq<u8>, layout: Seq<TickDescription>, numbers: Seq<Vec<Option<Price>>>) -> Result<
    Seq<InputRow>,
    Fault,
> {
    ticks_of(lines_of(text), layout, numbers, lines_of(text).len() as int)
}

/// The settings of a run.
pub struct FxTickConv {
    time_frame: TimeFrame,
    tick: Vec<TickDescription>,
    ask_bid: Option<AskBidOption>,
    headers: bool,
}

impl FxTickConv {
    #[verifier::type_invariant]
    spec fn inv(self) -> bool {
        self.time_frame.valid()
    }

    /// The time frame of the output.
    pub closed spec fn spec_time_frame(&self) -> TimeFrame {
        self.time_frame
    }

    /// The column layout of the input.
    pub closed spec fn spec_tick(&self) -> Seq<TickDescription> {
        self.tick@
    }

    /// The choice of sides.
    pub closed spec fn spec_ask_bid(&self) -> Option<AskBidOption> {
        self.ask_bid
    }

    /// Whether header lines are asked for.
    pub closed spec fn spec_headers(&self) -> bool {
        self.headers
    }

    /// Reads the settings: the column layout first, then the time frame.
    pub fn new(
        time_frame_text: &str,
        tick_text: &str,
        ask_only: bool,
        bid_only: bool,
        ask_first: bool,
        bid_first: bool,
        headers: bool,
    ) -> (made: Result<FxTickConv, SettingError>)
        ensures
            match made {
                Ok(settings) => {
                    &&& layout_of(tick_text.spec_bytes()) == Ok::<Seq<TickDescription>, SettingError>(
                        settings.spec_tick(),
                    )
                    &&& time_frame_of(time_frame_text.spec_bytes()) == Ok::<(usize, TimeUnit), SettingError>(
                        (settings.spec_time_frame().spec_len(), settings.spec_time_frame().spec_unit()),
                    )
                    &&& settings.spec_time_frame().valid()
                    &&& settings.spec_ask_bid() == choice_of(ask_only, bid_only, ask_first, bid_first)
                    &&& settings.spec_headers() == headers
                },
                Err(error) => match layout_of(tick_text.spec_bytes()) {
                    Err(fault) => error == fault,
                    Ok(_) => time_frame_of(time_frame_text.spec_bytes()) == Err::<(usize, TimeUnit), SettingError>(
                        error,
                    ),
                },
            },
    {
        let layout = match tick(tick_text) {
            Ok(layout) => layout,
            Err(error) => {
                return Err(error);
            },
        };
        let frame = match time_frame(time_frame_text) {
            Ok(frame) => frame,
            Err(error) => {
                return Err(error);
            },
        };
        Ok(
            FxTickConv {
                time_frame: frame,
                tick: layout,
                ask_bid: ask_bid(ask_only, bid_only, ask_first, bid_first),
                headers: headers,
            },
        )
    }

    /// The time frame of the output.
    pub fn time_frame(&self) -> (time_frame: &TimeFrame)
        ensures
            *time_frame == self.spec_time_frame(),
            time_frame.valid(),
    {
        proof {
            use_type_invariant(self);
        }
        &self.time_frame
    }

    /// The column layout of the input.
    pub fn tick(&self) -> (tick: &Vec<TickDescription>)
        ensures
            tick@ == self.spec_tick(),
    {
        &self.tick
    }

    /// The choice of sides.
    pub fn ask_bid(&self) -> (choice: Option<AskBidOption>)
        ensures
            choice == self.spec_ask_bid(),
    {
        self.ask_bid
    }

    /// Whether header lines are asked for.
    pub fn headers(&self) -> (headers: bool)
        ensures
            headers == self.spec_headers(),
    {
        self.headers
    }

    /// Reads the ticks of a text. `numbers` holds, for each line of the text
    /// that is not blank and for each field of that line, the number that
    /// the field writes, `None` where it writes none.
    pub fn read(&self, contents: &str, numbers: &Vec<Vec<Option<Price>>>) -> (read: Result<
        Vec<InputRow>,
        FormatError,
    >)
        ensures
            read_outcome(read) == read_of(contents.spec_bytes(), self.spec_tick(), numbers@),
    {
        let lines = line_producer(contents);
        let ghost expected = lines_of(contents.spec_bytes());
        let none: Vec<Option<Price>> = Vec::new();
        let mut rows: Vec<InputRow> = Vec::new();
        let mut i: usize = 0;
        while i < lines.len()
            invariant
                0 <= i <= lines.len(),
                expected == lines_of(contents.spec_bytes()),
                produced(lines@, expected),
                none@.len() == 0,
                ticks_of(expected, self.spec_tick(), numbers@, i as int) == Ok::<Seq<InputRow>, Fault>(rows@),
            decreases lines.len() - i,
        {
            let found: &Vec<Option<Price>> = if i < numbers.len() {
                &numbers[i]
            } else {
                &none
            };
            let line: &str = lines[i].1.as_str();
            let outcome = formatter(lines[i].0, line, &self.tick, found);
            proof {
                assert(found@ =~= numbers_of(numbers@, i as int));
                assert(lines@[i as int].0 == expected[i as int].0);
                assert(line.spec_bytes() == expected[i as int].1);
                lemma_ticks_step(expected, self.spec_tick(), numbers@, i as int, rows@, outcome_of(outcome));
                lemma_ticks_fault(expected, self.spec_tick(), numbers@, i + 1, lines.len() as int);
            }
            match outcome {
                Ok(row) => {
                    rows.push(row);
                },
                Err(error) => {
                    return Err(error);
                },
            }
            i += 1;
        }
        Ok(rows)
    }

    /// Converts a tick stream: groups the ticks by time frame and reduces
    /// each group to one output row.
    pub fn run(&self, rows: &Vec<InputRow>) -> (made: Result<Vec<Row>, ConvertError>)
        ensures
            run_outcome(made) == converted(
                self.spec_time_frame().width(),
                structure_of(self.spec_ask_bid()),
                rows@,
            ),
    {
        proof {
            use_type_invariant(self);
        }
        let structure = column_structure(self.ask_bid);
        let groups = grouper(rows, &self.time_frame).unwrap();
        let ghost expected = grouped(self.time_frame.width(), rows@);
        let mut out: Vec<Row> = Vec::new();
        let mut i: usize = 0;
        assert(shown(out@) =~= Seq::empty());
        while i < groups.len()
            invariant
                0 <= i <= groups.len(),
                aligned(groups@),
                expected == grouped(self.spec_time_frame().width(), rows@),
                groups.len() == expected.len(),
                contents(groups@) == expected,
                structure@ == structure_of(self.spec_ask_bid()),
                bars(expected, structure@, i as int) == Ok::<Seq<Bar>, ConvertError>(shown(out@)),
            decreases groups.len() - i,
        {
            proof {
                lemma_bars_fault(expected, structure@, i + 1, groups.len() as int);
            }
            let ghost before = shown(out@);
            assert(groups[i as int].wf());
            assert(contents(groups@)[i as int] == groups[i as int]@);
            match convert(&groups[i], structure.as_slice()) {
                Ok(row) => {
                    out.push(row);
                    assert(shown(out@) =~= before.push(row@));
                },
                Err(error) => {
                    return Err(error);
                },
            }
            i += 1;
        }
        Ok(out)
    }
}

/// The lines are those that the line source gives for the text.
spec fn produced(lines: Seq<(usize, String)>, expected: Seq<(int, Seq<u8>)>) -> bool {
    &&& lines.len() == expected.len()
    &&& forall|j: int|
        0 <= j < lines.len() ==> (#[trigger] lines[j]).0 == expected[j].0 && vstd::utf8::encode_utf8(lines[j].1@)
            == expected[j].1
}

/// The outcome of reading a line, as plain values.
spec fn outcome_of(read: Result<InputRow, FormatError>) -> Result<InputRow, Fault> {
    match read {
        Ok(row) => Ok(row),
        Err(error) => Err(error@),
    }
}

/// One more line adds its tick, or fails the text.
proof fn lemma_ticks_step(
    lines: Seq<(int, Seq<u8>)>,
    layout: Seq<TickDescription>,
    numbers: Seq<Vec<Option<Price>>>,
    n: int,
    before: Seq<InputRow>,
    outcome: Result<InputRow, Fault>,
)
    requires
        0 <= n,
        ticks_of(lines, layout, numbers, n) == Ok::<Seq<InputRow>, Fault>(before),
        outcome == formatted(
            lines[n].0 as usize,
            lines[n].1,
            layout,
            numbers_of(numbers, n),
            calendar(split(lines[n].1, COMMA), layout),
        ),
    ensures
        ticks_of(lines, layout, numbers, n + 1) == match outcome {
            Ok(row) => Ok::<Seq<InputRow>, Fault>(before.push(row)),
            Err(fault) => Err::<Seq<InputRow>, Fault>(fault),
        },
{
}

/// A fault among the first lines is the fault of the text.
proof fn lemma_ticks_fault(
    lines: Seq<(int, Seq<u8>)>,
    layout: Seq<TickDescription>,
    numbers: Seq<Vec<Option<Price>>>,
    n: int,
    m: int,
)
    requires
        0 <= n <= m,
    ensures
        ticks_of(lines, layout, numbers, n) is Err ==> ticks_of(lines, layout, numbers, m) == ticks_of(
            lines,
            layout,
            numbers,
            n,
        ),
    decreases m - n,
{
    if n < m {
        lemma_ticks_fault(lines, layout, numbers, n, m - 1);
    }
}

/// A fault among the first groups is the fault of the stream.
proof fn lemma_bars_fault(groups: Seq<Ticks>, structure: Seq<AskBid>, n: int, m: int)
    requires
        0 <= n <= m,
    ensures
        bars(groups, structure, n) is Err ==> bars(groups, structure, m) == bars(groups, structure, n),
    decreases m - n,
{
    if n < m {
        lemma_bars_fault(groups, structure, n, m - 1);
    }
}

/// The rows of a stream are as many as its groups, and each carries the
/// start of its group's time frame.
pub proof fn lemma_one_row_for_each_group(width: int, structure: Seq<AskBid>, rows: Seq<InputRow>)
    ensures
        converted(width, structure, rows) matches Ok(out) ==> {
            &&& out.len() == grouped(width, rows).len()
            &&& forall|k: int|
                0 <= k < out.len() ==> bar_of(grouped(width, rows)[k], structure) == Ok::<Bar, ConvertError>(
                    #[trigger] out[k],
                ) && out[k].datetime == grouped(width, rows)[k].boundary
        },
{
    lemma_bars(grouped(width, rows), structure, grouped(width, rows).len() as int);
}

/// The rows of the first groups are one for each group.
proof fn lemma_bars(groups: Seq<Ticks>, structure: Seq<AskBid>, n: int)
    requires
        0 <= n <= groups.len(),
    ensures
        match bars(groups, structure, n) {
            Ok(out) => {
                &&& out.len() == n
                &&& forall|k: int|
                    0 <= k < n ==> bar_of(groups[k], structure) == Ok::<Bar, ConvertError>(#[trigger] out[k])
                        && out[k].datetime == groups[k].boundary
            },
            Err(error) => exists|k: int| 0 <= k < n && bar_of(#[trigger] groups[k], structure) == Err::<
                Bar,
                ConvertError,
            >(error),
        },
    decreases n,
{
    if n > 0 {
        lemma_bars(groups, structure, n - 1);
        match bars(groups, structure, n - 1) {
            Err(error) => {
                let k = choose|k: int|
                    0 <= k < n - 1 && bar_of(#[trigger] groups[k], structure) == Err::<Bar, ConvertError>(error);
                assert(0 <= k < n);
            },
            Ok(before) => {
                match bar_of(groups[n - 1], structure) {
                    Err(error) => {},
                    Ok(bar) => {
                        let out = before.push(bar);
                        assert forall|k: int| 0 <= k < n implies bar_of(groups[k], structure) == Ok::<
                            Bar,
                            ConvertError,
                        >(#[trigger] out[k]) && out[k].datetime == groups[k].boundary by {
                            if k < n - 1 {
                                assert(out[k] == before[k]);
                            }
                        }
                    },
                }
            },
        }
    }
}

/// The grouper hands the converter no empty group: a stream fails to
/// convert only where a group holds prices that cannot be ordered.
pub proof fn lemma_no_empty_group_is_converted(width: int, structure: Seq<AskBid>, rows: Seq<InputRow>)
    requires
        width > 0,
    ensures
        converted(width, structure, rows) matches Err(error) ==> error == ConvertError::NotComparable,
{
    let groups = grouped(width, rows);
    lemma_bars(groups, structure, groups.len() as int);
    lemma_groups_partition_the_stream(width, rows);
    match converted(width, structure, rows) {
        Err(error) => {
            let k = choose|k: int|
                0 <= k < groups.len() && bar_of(#[trigger] groups[k], structure) == Err::<Bar, ConvertError>(error);
            let asks = asks_of(groups[k].rows);
            let bids = bids_of(groups[k].rows);
            lemma_processed(structure, asks, bids);
            let j = choose|j: int|
                0 <= j < structure.len() && fault(side(#[trigger] structure[j], asks, bids)) == Some(error);
            assert(groups[k].rows.len() > 0);
            assert(side(structure[j], asks, bids).len() > 0);
        },
        Ok(_) => {},
    }
}

/// A stream without ticks gives no row, and a text without lines no tick.
pub proof fn lemma_nothing_in_nothing_out(
    width: int,
    structure: Seq<AskBid>,
    layout: Seq<TickDescription>,
    numbers: Seq<Vec<Option<Price>>>,
)
    ensures
        converted(width, structure, Seq::empty()) == Ok::<Seq<Bar>, ConvertError>(Seq::empty()),
        read_of(Seq::empty(), layout, numbers) == Ok::<Seq<InputRow>, Fault>(Seq::empty()),
{
    let rows = Seq::<InputRow>::empty();
    assert(grouped(width, rows) =~= Seq::empty());
    let text = Seq::<u8>::empty();
    assert(split(text, LINE_FEED) =~= seq![Seq::<u8>::empty()]);
    reveal_with_fuel(crate::line_producer::numbered, 2);
    assert(lines_of(text) =~= Seq::empty());
}

/// Run again on the same ticks with the same settings, the converter gives
/// what it gave before: two outcomes that meet the contract of `run` for
/// one input are the same fault, or hold the same rows in the same order.
pub proof fn lemma_same_ticks_same_rows(
    width: int,
    structure: Seq<AskBid>,
    rows: Seq<InputRow>,
    first: Result<Vec<Row>, ConvertError>,
    second: Result<Vec<Row>, ConvertError>,
)
    requires
        run_outcome(first) == converted(width, structure, rows),
        run_outcome(second) == converted(width, structure, rows),
    ensures
        match (first, second) {
            (Ok(one), Ok(other)) => one@.len() == other@.len() && forall|i: int|
                0 <= i < one@.len() ==> (#[trigger] one@[i]).datetime == other@[i].datetime
                    && one@[i].column_data@ == other@[i].column_data@,
            (Err(one), Err(other)) => one == other,
            _ => false,
        },
{
    match (first, second) {
        (Ok(one), Ok(other)) => {
            assert(shown(one@) == shown(other@));
            assert(shown(one@).len() == one@.len());
            assert(shown(other@).len() == other@.len());
            assert forall|i: int| 0 <= i < one@.len() implies (#[trigger] one@[i]).datetime == other@[i].datetime
                && one@[i].column_data@ == other@[i].column_data@ by {
                assert(shown(one@)[i] == one@[i]@);
                assert(shown(other@)[i] == other@[i]@);
            }
        },
        _ => {},
    }
}

/// Read again from the same text with the same layout and the same numbers,
/// the ticks are what they were before: two outcomes that meet the contract
/// of `read` for one input are the same fault, or hold the same ticks in
/// the same order.
pub proof fn lemma_same_text_same_ticks(
    text: Seq<u8>,
    layout: Seq<TickDescription>,
    numbers: Seq<Vec<Option<Price>>>,
    first: Result<Vec<InputRow>, FormatError>,
    second: Result<Vec<InputRow>, FormatError>,
)
    requires
        read_outcome(first) == read_of(text, layout, numbers),
        read_outcome(second) == read_of(text, layout, numbers),
    ensures
        match (first, second) {
            (Ok(one), Ok(other)) => one@ == other@,
            (Err(one), Err(other)) => one@ == other@,
            _ => false,
        },
{
}

/// What an output column holds of its side.
#[derive(PartialEq, Eq, Clone, Copy, Debug, Structural)]
pub enum ColumnDescription {
    Open,
    High,
    Low,
    Close,
}

/// One output column: a side, and what the column holds of it.
#[derive(PartialEq, Eq, Clone, Copy, Debug, Structural)]
pub struct Column {
    pub desc: ColumnDescription,
    pub ask_bid: AskBid,
}

impl Column {
    /// The name of the column: its side, then what it holds.
    pub open spec fn spec_name(&self) -> Seq<char> {
        (match self.ask_bid {
            AskBid::Ask => "Ask "@,
            AskBid::Bid => "Bid "@,
        }) + (match self.desc {
            ColumnDescription::Open => "Open"@,
            ColumnDescription::High => "High"@,
            ColumnDescription::Low => "Low"@,
            ColumnDescription::Close => "Close"@,
        })
    }

    /// The price that the column holds for a group with these prices.
    pub open spec fn datum(&self, asks: Seq<Price>, bids: Seq<Price>) -> Price {
        let prices = side(self.ask_bid, asks, bids);
        match self.desc {
            ColumnDescription::Open => prices.first(),
            ColumnDescription::High => prices[high_at(prices)],
            ColumnDescription::Low => prices[low_at(prices)],
            ColumnDescription::Close => prices.last(),
        }
    }

    pub fn new(desc: ColumnDescription, ask_bid: AskBid) -> (column: Column)
        ensures
            column == (Column { desc: desc, ask_bid: ask_bid }),
    {
        Column { desc: desc, ask_bid: ask_bid }
    }

    /// The name of the column: its side, then what it holds.
    pub fn name(&self) -> (name: String)
        ensures
            name@ == self.spec_name(),
    {
        let mut name = String::new();
        name.append(
            match self.ask_bid {
                AskBid::Ask => "Ask ",
                AskBid::Bid => "Bid ",
            },
        );
        name.append(
            match self.desc {
                ColumnDescription::Open => "Open",
                ColumnDescription::High => "High",
                ColumnDescription::Low => "Low",
                ColumnDescription::Close => "Close",
            },
        );
        assert(name@ =~= self.spec_name());
        name
    }

    /// The side of the column.
    pub fn ask_bid(&self) -> (ask_bid: &AskBid)
        ensures
            *ask_bid == self.ask_bid,
    {
        &self.ask_bid
    }

    /// What the column holds of its side.
    pub fn desc(&self) -> (desc: &ColumnDescription)
        ensures
            *desc == self.desc,
    {
        &self.desc
    }
}

/// The four columns of a side: open, high, low, close.
pub open spec fn four(which: AskBid) -> Seq<Column> {
    seq![
        Column { desc: ColumnDescription::Open, ask_bid: which },
        Column { desc: ColumnDescription::High, ask_bid: which },
        Column { desc: ColumnDescription::Low, ask_bid: which },
        Column { desc: ColumnDescription::Close, ask_bid: which },
    ]
}

/// The output columns for the chosen sides: four for each side, in the
/// order of the sides.
pub open spec fn columns_of(structure: Seq<AskBid>) -> Seq<Column>
    decreases structure.len(),
{
    if structure.len() == 0 {
        Seq::empty()
    } else {
        columns_of(structure.drop_last()) + four(structure.last())
    }
}

/// Appends the four columns of a side.
fn add_side(col: &mut Vec<Column>, which: AskBid)
    ensures
        final(col)@ == old(col)@ + four(which),
{
    col.push(Column::new(ColumnDescription::Open, which));
    col.push(Column::new(ColumnDescription::High, which));
    col.push(Column::new(ColumnDescription::Low, which));
    col.push(Column::new(ColumnDescription::Close, which));
    assert(col@ =~= old(col)@ + four(which));
}

/// Appends the four columns of the ask side.
pub fn add_ask(col: &mut Vec<Column>)
    ensures
        final(col)@ == old(col)@ + four(AskBid::Ask),
{
    add_side(col, AskBid::Ask);
}

/// Appends the four columns of the bid side.
pub fn add_bid(col: &mut Vec<Column>)
    ensures
        final(col)@ == old(col)@ + four(AskBid::Bid),
{
    add_side(col, AskBid::Bid);
}

/// The output columns for a choice of sides.
pub fn output_columns(choice: Option<AskBidOption>) -> (columns: Vec<Column>)
    ensures
        columns@ == columns_of(structure_of(choice)),
{
    let mut columns: Vec<Column> = Vec::new();
    let ghost structure = structure_of(choice);
    proof {
        reveal_with_fuel(columns_of, 3);
        if structure.len() == 2 {
            assert(structure.drop_last().drop_last() =~= Seq::empty());
            assert(structure.drop_last().last() == structure[0]);
        } else {
            assert(structure.drop_last() =~= Seq::empty());
        }
    }
    match choice {
        Some(AskBidOption::AskOnly) => {
            add_ask(&mut columns);
        },
        Some(AskBidOption::BidOnly) => {
            add_bid(&mut columns);
        },
        Some(AskBidOption::BidFirst) => {
            add_bid(&mut columns);
            add_ask(&mut columns);
        },
        _ => {
            add_ask(&mut columns);
            add_bid(&mut columns);
        },
    }
    assert(columns@ =~= columns_of(structure));
    columns
}

/// The prices of an output row stand in the order of the output columns,
/// each the price that its column holds for the group.
pub proof fn lemma_columns_line_up(structure: Seq<AskBid>, asks: Seq<Price>, bids: Seq<Price>)
    ensures
        columns_of(structure).len() == 4 * structure.len(),
        processed(structure, asks, bids) matches Ok(out) ==> out.len() == columns_of(structure).len() && forall|
            k: int,
        |
            0 <= k < out.len() ==> #[trigger] out[k] == columns_of(structure)[k].datum(asks, bids),
    decreases structure.len(),
{
    if structure.len() > 0 {
        let head = structure.drop_last();
        lemma_columns_line_up(head, asks, bids);
        match processed(structure, asks, bids) {
            Ok(out) => {
                let before = processed(head, asks, bids)->Ok_0;
                assert forall|k: int| 0 <= k < out.len() implies #[trigger] out[k] == columns_of(
                    structure,
                )[k].datum(asks, bids) by {
                    if k >= before.len() {
                        assert(columns_of(structure)[k] == four(structure.last())[k - before.len()]);
                    } else {
                        assert(out[k] == before[k]);
                    }
                }
            },
            Err(_) => {},
        }
    }
}

} // verus!
