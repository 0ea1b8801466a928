use fxtickconv::converter::process;
use fxtickconv::converter::column_structure;
use fxtickconv::fxconv::{AskBid, AskBidOption};
use fxtickconv::fxtickconv::{add_ask, add_bid, output_columns, Column, ColumnDescription};
use fxtickconv::market::price::Price;

#[test]
fn column_names() {
    assert_eq!(Column::new(ColumnDescription::Open, AskBid::Ask).name(), "Ask Open");
    assert_eq!(Column::new(ColumnDescription::High, AskBid::Ask).name(), "Ask High");
    assert_eq!(Column::new(ColumnDescription::Low, AskBid::Bid).name(), "Bid Low");
    assert_eq!(Column::new(ColumnDescription::Close, AskBid::Bid).name(), "Bid Close");
    let column = Column::new(ColumnDescription::Close, AskBid::Bid);
    assert_eq!(*column.desc(), ColumnDescription::Close);
    assert_eq!(*column.ask_bid(), AskBid::Bid);
}

fn names(choice: Option<AskBidOption>) -> Vec<String> {
    output_columns(choice).iter().map(|column| column.name()).collect()
}

#[test]
fn output_columns_for_each_choice() {
    let ask = ["Ask Open", "Ask High", "Ask Low", "Ask Close"];
    let bid = ["Bid Open", "Bid High", "Bid Low", "Bid Close"];
    assert_eq!(names(Some(AskBidOption::AskOnly)), ask);
    assert_eq!(names(Some(AskBidOption::BidOnly)), bid);
    assert_eq!(names(Some(AskBidOption::BidFirst)), [bid, ask].concat());
    assert_eq!(names(Some(AskBidOption::AskFirst)), [ask, bid].concat());
    assert_eq!(names(None), [ask, bid].concat());
}

#[test]
fn columns_are_appended() {
    let mut columns = vec![Column::new(ColumnDescription::Low, AskBid::Bid)];
    add_ask(&mut columns);
    add_bid(&mut columns);
    assert_eq!(columns.len(), 9);
    assert_eq!(columns[0], Column { desc: ColumnDescription::Low, ask_bid: AskBid::Bid });
    assert_eq!(columns[1], Column { desc: ColumnDescription::Open, ask_bid: AskBid::Ask });
    assert_eq!(columns[4], Column { desc: ColumnDescription::Close, ask_bid: AskBid::Ask });
    assert_eq!(columns[5], Column { desc: ColumnDescription::Open, ask_bid: AskBid::Bid });
    assert_eq!(columns[8], Column { desc: ColumnDescription::Close, ask_bid: AskBid::Bid });
}

#[test]
fn prices_of_a_row_stand_in_the_order_of_the_columns() {
    let asks: Vec<Price> = [2.0f32, 3.0, 1.0, 2.5].iter().map(|value| Price::from_bits(value.to_bits())).collect();
    let bids: Vec<Price> = [1.5f32, 0.5, 0.75, 1.0].iter().map(|value| Price::from_bits(value.to_bits())).collect();
    let choice = Some(AskBidOption::BidFirst);
    let row = process(&column_structure(choice), &asks, &bids).unwrap();
    let columns = output_columns(choice);
    assert_eq!(row.len(), columns.len());
    for (price, column) in row.iter().zip(columns.iter()) {
        let side = match column.ask_bid() {
            AskBid::Ask => &asks,
            AskBid::Bid => &bids,
        };
        let expected = match column.desc() {
            ColumnDescription::Open => side[0],
            ColumnDescription::High => *side.iter().max_by_key(|price| price.key()).unwrap(),
            ColumnDescription::Low => *side.iter().min_by_key(|price| price.key()).unwrap(),
            ColumnDescription::Close => side[side.len() - 1],
        };
        assert_eq!(*price, expected);
    }
}
