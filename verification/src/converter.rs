//! The converter: one group of ticks to one output row.
//!
//! For each chosen side, in the chosen order, a row holds four prices: the
//! first of the group, the highest, the lowest and the last.
use crate::fxconv::AskBid;
use crate::fxconv::AskBidOption;
use crate::formatter::InputRow;
use crate::grouper::TickGroup;
use crate::grouper::Ticks;
use crate::market::instant::Timestamp;
use crate::market::price::Price;
use vstd::prelude::*;

verus! {

/// One output row: the start of the time frame and the bar of each chosen
/// side.
#[derive(Debug, PartialEq)]
pub struct Row {
    pub datetime: Timestamp,
    pub column_data: Vec<Price>,
}

/// What an output row holds.
pub struct Bar {
    pub datetime: Timestamp,
    pub columns: Seq<Price>,
}

impl View for Row {
    type V = Bar;

    open spec fn view(&self) -> Bar {
        Bar { datetime: self.datetime, columns: self.column_data@ }
    }
}

/// Why a group cannot be converted.
#[derive(PartialEq, Eq, Clone, Copy, Debug, Structural)]
pub enum ConvertError {
    /// The group holds no tick.
    EmptyGroup,
    /// The group holds several prices of a side and one of them is not a
    /// number, so that they cannot be ordered.
    NotComparable,
}

/// Prices can be ordered when there is one alone or all are numbers.
pub open spec fn comparable(values: Seq<Price>) -> bool {
    values.len() >= 2 ==> forall|i: int| 0 <= i < values.len() ==> !(#[trigger] values[i]).is_nan()
}

/// Why a column has no bar, if it has none.
pub open spec fn fault(values: Seq<Price>) -> Option<ConvertError> {
    if values.len() == 0 {
        Some(ConvertError::EmptyGroup)
    } else if !comparable(values) {
        Some(ConvertError::NotComparable)
    } else {
        None
    }
}

/// The index of the highest price; of the last of them where several are
/// equally high.
pub open spec fn high_at(values: Seq<Price>) -> int
    decreases values.len(),
{
    if values.len() <= 1 {
        0
    } else {
        let before = high_at(values.drop_last());
        if values.last().rank() >= values[before].rank() {
            values.len() - 1
        } else {
            before
        }
    }
}

/// The index of the lowest price; of the first of them where several are
/// equally low.
pub open spec fn low_at(values: Seq<Price>) -> int
    decreases values.len(),
{
    if values.len() <= 1 {
        0
    } else {
        let before = low_at(values.drop_last());
        if values.last().rank() < values[before].rank() {
            values.len() - 1
        } else {
            before
        }
    }
}

/// The bar of a column of prices: open, high, low, close.
pub open spec fn bar(values: Seq<Price>) -> Seq<Price> {
    seq![values.first(), values[high_at(values)], values[low_at(values)], values.last()]
}

/// The column of one side.
pub open spec fn side(which: AskBid, asks: Seq<Price>, bids: Seq<Price>) -> Seq<Price> {
    match which {
        AskBid::Ask => asks,
        AskBid::Bid => bids,
    }
}

/// The columns of an output row: the bars of the chosen sides in their
/// order, or the first fault met on the way.
pub open spec fn processed(structure: Seq<AskBid>, asks: Seq<Price>, bids: Seq<Price>) -> Result<
    Seq<Price>,
    ConvertError,
>
    decreases structure.len(),
{
    if structure.len() == 0 {
        Ok(Seq::empty())
    } else {
        match processed(structure.drop_last(), asks, bids) {
            Err(error) => Err(error),
            Ok(columns) => match fault(side(structure.last(), asks, bids)) {
                Some(error) => Err(error),
                None => Ok(columns + bar(side(structure.last(), asks, bids))),
            },
        }
    }
}

/// The ask prices of a run of ticks.
pub open spec fn asks_of(rows: Seq<InputRow>) -> Seq<Price> {
    Seq::new(rows.len(), |i: int| rows[i].ask)
}

/// The bid prices of a run of ticks.
pub open spec fn bids_of(rows: Seq<InputRow>) -> Seq<Price> {
    Seq::new(rows.len(), |i: int| rows[i].bid)
}

/// The output row of a group: the start of the group's time frame, and the
/// bars of the chosen sides.
pub open spec fn bar_of(ticks: Ticks, structure: Seq<AskBid>) -> Result<Bar, ConvertError> {
    match processed(structure, asks_of(ticks.rows), bids_of(ticks.rows)) {
        Ok(columns) => Ok(Bar { datetime: ticks.boundary, columns: columns }),
        Err(error) => Err(error),
    }
}

/// The sides of the output and their order, for a choice; ask before bid
/// where nothing was chosen.
pub open spec fn structure_of(ask_bid: Option<AskBidOption>) -> Seq<AskBid> {
    match ask_bid {
        Some(AskBidOption::AskOnly) => seq![AskBid::Ask],
        Some(AskBidOption::BidOnly) => seq![AskBid::Bid],
        Some(AskBidOption::BidFirst) => seq![AskBid::Bid, AskBid::Ask],
        _ => seq![AskBid::Ask, AskBid::Bid],
    }
}

/// The index of the highest price lies in the column; no price is higher,
/// and none behind it is as high.
pub proof fn lemma_high_at(values: Seq<Price>)
    requires
        values.len() > 0,
    ensures
        0 <= high_at(values) < values.len(),
        forall|i: int| 0 <= i < values.len() ==> (#[trigger] values[i]).rank() <= values[high_at(values)].rank(),
        forall|i: int|
            high_at(values) < i < values.len() ==> (#[trigger] values[i]).rank() < values[high_at(values)].rank(),
    decreases values.len(),
{
    if values.len() > 1 {
        let head = values.drop_last();
        lemma_high_at(head);
        assert forall|i: int| 0 <= i < values.len() implies (#[trigger] values[i]).rank() <= values[high_at(
            values,
        )].rank() by {
            if i < head.len() {
                assert(values[i] == head[i]);
            }
        }
        assert forall|i: int| high_at(values) < i < values.len() implies (#[trigger] values[i]).rank()
            < values[high_at(values)].rank() by {
            if i < head.len() {
                assert(values[i] == head[i]);
            }
        }
    }
}

/// The index of the lowest price lies in the column; no price is lower, and
/// none before it is as low.
pub proof fn lemma_low_at(values: Seq<Price>)
    requires
        values.len() > 0,
    ensures
        0 <= low_at(values) < values.len(),
        forall|i: int| 0 <= i < values.len() ==> values[low_at(values)].rank() <= (#[trigger] values[i]).rank(),
        forall|i: int| 0 <= i < low_at(values) ==> values[low_at(values)].rank() < (#[trigger] values[i]).rank(),
    decreases values.len(),
{
    if values.len() > 1 {
        let head = values.drop_last();
        lemma_low_at(head);
        assert forall|i: int| 0 <= i < values.len() implies values[low_at(values)].rank() <= (
        #[trigger] values[i]).rank() by {
            if i < head.len() {
                assert(values[i] == head[i]);
            }
        }
        assert forall|i: int| 0 <= i < low_at(values) implies values[low_at(values)].rank() < (
        #[trigger] values[i]).rank() by {
            if i < head.len() {
                assert(values[i] == head[i]);
            }
        }
    }
}

/// Of a bar: the open is the first price of the column and the close the
/// last; the high is a price of the column that none exceeds, the low one
/// that none falls below.
pub proof fn lemma_bar(values: Seq<Price>)
    requires
        values.len() > 0,
    ensures
        bar(values).len() == 4,
        bar(values)[0] == values[0],
        bar(values)[3] == values[values.len() - 1],
        values.contains(bar(values)[1]),
        values.contains(bar(values)[2]),
        forall|i: int| 0 <= i < values.len() ==> (#[trigger] values[i]).rank() <= bar(values)[1].rank(),
        forall|i: int| 0 <= i < values.len() ==> bar(values)[2].rank() <= (#[trigger] values[i]).rank(),
{
    lemma_high_at(values);
    lemma_low_at(values);
}

/// The columns of a row are the bars of the chosen sides, four prices each,
/// each side's bar taken from that side's prices alone.
pub proof fn lemma_processed(structure: Seq<AskBid>, asks: Seq<Price>, bids: Seq<Price>)
    ensures
        match processed(structure, asks, bids) {
            Ok(columns) => {
                &&& columns.len() == 4 * structure.len()
                &&& forall|k: int|
                    0 <= k < structure.len() ==> fault(side(#[trigger] structure[k], asks, bids)) is None
                        && columns.subrange(4 * k, 4 * k + 4) == bar(side(structure[k], asks, bids))
            },
            Err(error) => exists|k: int|
                0 <= k < structure.len() && fault(side(#[trigger] structure[k], asks, bids)) == Some(error),
        },
    decreases structure.len(),
{
    if structure.len() > 0 {
        let head = structure.drop_last();
        lemma_processed(head, asks, bids);
        match processed(head, asks, bids) {
            Err(error) => {
                let k = choose|k: int|
                    0 <= k < head.len() && fault(side(#[trigger] head[k], asks, bids)) == Some(error);
                assert(structure[k] == head[k]);
            },
            Ok(before) => {
                let last = side(structure.last(), asks, bids);
                match fault(last) {
                    Some(error) => {
                        assert(structure[structure.len() - 1] == structure.last());
                    },
                    None => {
                        let columns = before + bar(last);
                        assert forall|k: int| 0 <= k < structure.len() implies fault(
                            side(#[trigger] structure[k], asks, bids),
                        ) is None && columns.subrange(4 * k, 4 * k + 4) == bar(side(structure[k], asks, bids)) by {
                            if k < head.len() {
                                assert(structure[k] == head[k]);
                                assert(columns.subrange(4 * k, 4 * k + 4) =~= before.subrange(4 * k, 4 * k + 4));
                            } else {
                                assert(columns.subrange(4 * k, 4 * k + 4) =~= bar(last));
                            }
                        }
                    },
                }
            },
        }
    }
}

/// Whether the prices of a column can be ordered.
pub fn can_order(column: &Vec<Price>) -> (ordered: bool)
    ensures
        ordered == comparable(column@),
{
    if column.len() < 2 {
        return true;
    }
    let mut i: usize = 0;
    while i < column.len()
        invariant
            2 <= column.len(),
            0 <= i <= column.len(),
            forall|j: int| 0 <= j < i ==> !(#[trigger] column@[j]).is_nan(),
        decreases column.len() - i,
    {
        if column[i].is_nan() {
            assert(column@[i as int].is_nan());
            return false;
        }
        i += 1;
    }
    true
}

/// Return the first value of the column.
pub fn open(column: &Vec<Price>) -> (first: Result<Price, ConvertError>)
    ensures
        first == (if column@.len() == 0 {
            Err::<Price, ConvertError>(ConvertError::EmptyGroup)
        } else {
            Ok(column@.first())
        }),
{
    if column.len() == 0 {
        return Err(ConvertError::EmptyGroup);
    }
    Ok(column[0])
}

/// Return the highest value of the column.
pub fn high(column: &Vec<Price>) -> (highest: Result<Price, ConvertError>)
    ensures
        highest == (match fault(column@) {
            Some(error) => Err::<Price, ConvertError>(error),
            None => Ok(column@[high_at(column@)]),
        }),
{
    if column.len() == 0 {
        return Err(ConvertError::EmptyGroup);
    }
    if !can_order(column) {
        return Err(ConvertError::NotComparable);
    }
    let mut best: usize = 0;
    let mut i: usize = 1;
    assert(column@.take(1).len() == 1);
    while i < column.len()
        invariant
            1 <= i <= column.len(),
            0 <= best < i,
            best == high_at(column@.take(i as int)),
        decreases column.len() - i,
    {
        assert(column@.take(i + 1).drop_last() =~= column@.take(i as int));
        if column[i].key() >= column[best].key() {
            best = i;
        }
        i += 1;
    }
    assert(column@.take(i as int) =~= column@);
    Ok(column[best])
}

/// Return the lowest value of the column.
pub fn low(column: &Vec<Price>) -> (lowest: Result<Price, ConvertError>)
    ensures
        lowest == (match fault(column@) {
            Some(error) => Err::<Price, ConvertError>(error),
            None => Ok(column@[low_at(column@)]),
        }),
{
    if column.len() == 0 {
        return Err(ConvertError::EmptyGroup);
    }
    if !can_order(column) {
        return Err(ConvertError::NotComparable);
    }
    let mut best: usize = 0;
    let mut i: usize = 1;
    assert(column@.take(1).len() == 1);
    while i < column.len()
        invariant
            1 <= i <= column.len(),
            0 <= best < i,
            best == low_at(column@.take(i as int)),
        decreases column.len() - i,
    {
        assert(column@.take(i + 1).drop_last() =~= column@.take(i as int));
        if column[i].key() < column[best].key() {
            best = i;
        }
        i += 1;
    }
    assert(column@.take(i as int) =~= column@);
    Ok(column[best])
}

/// Return the last value of the column.
pub fn close(column: &Vec<Price>) -> (last: Result<Price, ConvertError>)
    ensures
        last == (if column@.len() == 0 {
            Err::<Price, ConvertError>(ConvertError::EmptyGroup)
        } else {
            Ok(column@.last())
        }),
{
    if column.len() == 0 {
        return Err(ConvertError::EmptyGroup);
    }
    Ok(column[column.len() - 1])
}

/// Create the columns of an output row from the prices of a group.
pub fn process(column_structure: &[AskBid], rows_ask: &Vec<Price>, rows_bid: &Vec<Price>) -> (row: Result<
    Vec<Price>,
    ConvertError,
>)
    ensures
        match row {
            Ok(columns) => processed(column_structure@, rows_ask@, rows_bid@) == Ok::<Seq<Price>, ConvertError>(
                columns@,
            ),
            Err(error) => processed(column_structure@, rows_ask@, rows_bid@) == Err::<Seq<Price>, ConvertError>(
                error,
            ),
        },
{
    let mut row: Vec<Price> = Vec::new();
    let mut i: usize = 0;
    assert(column_structure@.take(0) =~= Seq::empty());
    while i < column_structure.len()
        invariant
            0 <= i <= column_structure.len(),
            processed(column_structure@.take(i as int), rows_ask@, rows_bid@) == Ok::<Seq<Price>, ConvertError>(
                row@,
            ),
        decreases column_structure.len() - i,
    {
        let column = match column_structure[i] {
            AskBid::Ask => rows_ask,
            AskBid::Bid => rows_bid,
        };
        let ghost before = row@;
        let ghost taken = column_structure@.take(i + 1);
        assert(taken.drop_last() =~= column_structure@.take(i as int));
        assert(taken.last() == column_structure@[i as int]);
        proof {
            lemma_processed_prefix(column_structure@, i + 1, rows_ask@, rows_bid@);
        }
        let first = open(column)?;
        let highest = high(column)?;
        let lowest = low(column)?;
        let last = close(column)?;
        row.push(first);
        row.push(highest);
        row.push(lowest);
        row.push(last);
        assert(row@ =~= before + bar(column@));
        i += 1;
    }
    assert(column_structure@.take(i as int) =~= column_structure@);
    Ok(row)
}

/// A fault among the first sides is the fault of the whole.
proof fn lemma_processed_prefix(structure: Seq<AskBid>, n: int, asks: Seq<Price>, bids: Seq<Price>)
    requires
        0 <= n <= structure.len(),
    ensures
        processed(structure.take(n), asks, bids) is Err ==> processed(structure, asks, bids) == processed(
            structure.take(n),
            asks,
            bids,
        ),
    decreases structure.len() - n,
{
    if n < structure.len() {
        lemma_processed_prefix(structure, n + 1, asks, bids);
        assert(structure.take(n + 1).drop_last() =~= structure.take(n));
    } else {
        assert(structure.take(n) =~= structure);
    }
}

/// The sides of the output and their order, for a choice.
pub fn column_structure(ask_bid: Option<AskBidOption>) -> (structure: Vec<AskBid>)
    ensures
        structure@ == structure_of(ask_bid),
{
    let mut structure: Vec<AskBid> = Vec::new();
    match ask_bid {
        Some(AskBidOption::AskOnly) => {
            structure.push(AskBid::Ask);
        },
        Some(AskBidOption::BidOnly) => {
            structure.push(AskBid::Bid);
        },
        Some(AskBidOption::BidFirst) => {
            structure.push(AskBid::Bid);
            structure.push(AskBid::Ask);
        },
        _ => {
            structure.push(AskBid::Ask);
            structure.push(AskBid::Bid);
        },
    }
    assert(structure@ =~= structure_of(ask_bid));
    structure
}

/// Converts one group: the row carries the start of the group's time frame
/// and the bars of the chosen sides.
pub fn convert(group: &TickGroup, column_structure: &[AskBid]) -> (made: Result<Row, ConvertError>)
    ensures
        match made {
            Ok(row) => row.datetime == group.boundary && processed(column_structure@, group.asks@, group.bids@)
                == Ok::<Seq<Price>, ConvertError>(row.column_data@),
            Err(error) => processed(column_structure@, group.asks@, group.bids@) == Err::<
                Seq<Price>,
                ConvertError,
            >(error),
        },
        group.wf() ==> match made {
            Ok(row) => bar_of(group@, column_structure@) == Ok::<Bar, ConvertError>(row@),
            Err(error) => bar_of(group@, column_structure@) == Err::<Bar, ConvertError>(error),
        },
{
    proof {
        if group.wf() {
            assert(group.asks@ =~= asks_of(group@.rows));
            assert(group.bids@ =~= bids_of(group@.rows));
        }
    }
    match process(column_structure, &group.asks, &group.bids) {
        Ok(columns) => Ok(Row { datetime: group.boundary, column_data: columns }),
        Err(error) => Err(error),
    }
}

} // verus!
