use fxtickconv::converter::{
    can_order, close, column_structure, convert, high, low, open, process, ConvertError, Row,
};
use fxtickconv::fxconv::{AskBid, AskBidOption};
use fxtickconv::grouper::TickGroup;
use fxtickconv::market::instant::Timestamp;
use fxtickconv::market::price::Price;

fn prices(values: &[f32]) -> Vec<Price> {
    values.iter().map(|value| Price::from_bits(value.to_bits())).collect()
}

fn values(prices: &[Price]) -> Vec<f32> {
    prices.iter().map(|price| f32::from_bits(price.to_bits())).collect()
}

#[test]
fn bar_of_one_side() {
    let asks = prices(&[1.1234, 1.1300, 1.1100, 1.1204]);
    let bids = prices(&[1.1222, 1.1290, 1.1090, 1.1195]);
    let row = process(&[AskBid::Ask], &asks, &bids).unwrap();
    assert_eq!(values(&row), vec![1.1234, 1.1300, 1.1100, 1.1204]);
    let row = process(&[AskBid::Bid], &asks, &bids).unwrap();
    assert_eq!(values(&row), vec![1.1222, 1.1290, 1.1090, 1.1195]);
}

#[test]
fn bars_of_both_sides_in_the_chosen_order() {
    let asks = prices(&[2.0, 3.0, 1.0]);
    let bids = prices(&[0.5, 0.25, 0.75]);
    let row = process(&[AskBid::Ask, AskBid::Bid], &asks, &bids).unwrap();
    assert_eq!(values(&row), vec![2.0, 3.0, 1.0, 1.0, 0.5, 0.75, 0.25, 0.75]);
    let row = process(&[AskBid::Bid, AskBid::Ask], &asks, &bids).unwrap();
    assert_eq!(values(&row), vec![0.5, 0.75, 0.25, 0.75, 2.0, 3.0, 1.0, 1.0]);
    assert_eq!(process(&[], &asks, &bids), Ok(vec![]));
}

#[test]
fn open_high_low_close_of_a_column() {
    let column = prices(&[5.0, -2.0, 9.5, 0.0, 3.0]);
    assert_eq!(open(&column), Ok(column[0]));
    assert_eq!(high(&column), Ok(column[2]));
    assert_eq!(low(&column), Ok(column[1]));
    assert_eq!(close(&column), Ok(column[4]));
    let one = prices(&[7.0]);
    assert_eq!(open(&one), Ok(one[0]));
    assert_eq!(high(&one), Ok(one[0]));
    assert_eq!(low(&one), Ok(one[0]));
    assert_eq!(close(&one), Ok(one[0]));
}

#[test]
fn negative_prices_are_ordered_as_numbers() {
    let column = prices(&[-1.0, -3.0, -2.0, f32::NEG_INFINITY, f32::INFINITY, -0.5]);
    assert_eq!(values(&[high(&column).unwrap()]), vec![f32::INFINITY]);
    assert_eq!(values(&[low(&column).unwrap()]), vec![f32::NEG_INFINITY]);
    let column = prices(&[-1.0, -3.0, -2.0]);
    assert_eq!(values(&[high(&column).unwrap()]), vec![-1.0]);
    assert_eq!(values(&[low(&column).unwrap()]), vec![-3.0]);
}

#[test]
fn equal_prices_give_the_last_high_and_the_first_low() {
    // the two zeros are equal as numbers and differ in their bits
    let column = prices(&[0.0, -0.0]);
    assert_eq!(high(&column).unwrap().to_bits(), (-0.0f32).to_bits());
    assert_eq!(low(&column).unwrap().to_bits(), 0.0f32.to_bits());
    let column = prices(&[-0.0, 0.0]);
    assert_eq!(high(&column).unwrap().to_bits(), 0.0f32.to_bits());
    assert_eq!(low(&column).unwrap().to_bits(), (-0.0f32).to_bits());
}

#[test]
fn empty_group_is_a_fault() {
    let none: Vec<Price> = vec![];
    assert_eq!(open(&none), Err(ConvertError::EmptyGroup));
    assert_eq!(high(&none), Err(ConvertError::EmptyGroup));
    assert_eq!(low(&none), Err(ConvertError::EmptyGroup));
    assert_eq!(close(&none), Err(ConvertError::EmptyGroup));
    assert_eq!(process(&[AskBid::Ask], &none, &none), Err(ConvertError::EmptyGroup));
    // a side that is not chosen is not looked at
    assert_eq!(process(&[AskBid::Bid], &none, &prices(&[1.0])).map(|row| values(&row)), Ok(vec![1.0, 1.0, 1.0, 1.0]));
}

#[test]
fn prices_that_are_no_numbers_cannot_be_ordered() {
    let column = prices(&[1.0, f32::NAN, 2.0]);
    assert!(!can_order(&column));
    assert_eq!(high(&column), Err(ConvertError::NotComparable));
    assert_eq!(low(&column), Err(ConvertError::NotComparable));
    assert_eq!(process(&[AskBid::Ask], &column, &column), Err(ConvertError::NotComparable));
    // one price alone is its own bar, number or not
    let alone = prices(&[f32::NAN]);
    assert!(can_order(&alone));
    assert_eq!(high(&alone), Ok(alone[0]));
    assert_eq!(process(&[AskBid::Ask], &alone, &alone), Ok(vec![alone[0]; 4]));
    assert!(Price::from_bits(f32::NAN.to_bits()).is_nan());
    assert!(Price::from_bits((-f32::NAN).to_bits()).is_nan());
    assert!(!Price::from_bits(f32::INFINITY.to_bits()).is_nan());
    assert!(!Price::from_bits(f32::NEG_INFINITY.to_bits()).is_nan());
}

#[test]
fn first_fault_in_the_order_of_the_sides() {
    let none: Vec<Price> = vec![];
    let bad = prices(&[1.0, f32::NAN]);
    assert_eq!(process(&[AskBid::Ask, AskBid::Bid], &none, &bad), Err(ConvertError::EmptyGroup));
    assert_eq!(process(&[AskBid::Bid, AskBid::Ask], &none, &bad), Err(ConvertError::NotComparable));
}

#[test]
fn structure_for_each_choice() {
    assert_eq!(column_structure(Some(AskBidOption::AskOnly)), vec![AskBid::Ask]);
    assert_eq!(column_structure(Some(AskBidOption::BidOnly)), vec![AskBid::Bid]);
    assert_eq!(column_structure(Some(AskBidOption::BidFirst)), vec![AskBid::Bid, AskBid::Ask]);
    assert_eq!(column_structure(Some(AskBidOption::AskFirst)), vec![AskBid::Ask, AskBid::Bid]);
    assert_eq!(column_structure(None), vec![AskBid::Ask, AskBid::Bid]);
}

#[test]
fn row_carries_the_boundary_of_its_group() {
    let group = TickGroup {
        boundary: Timestamp { millis: 1_000 },
        datetimes: vec![Timestamp { millis: 1_250 }, Timestamp { millis: 1_500 }],
        asks: prices(&[1.5, 1.25]),
        bids: prices(&[1.0, 1.125]),
    };
    assert_eq!(
        convert(&group, &[AskBid::Ask, AskBid::Bid]),
        Ok(Row {
            datetime: Timestamp { millis: 1_000 },
            column_data: prices(&[1.5, 1.5, 1.25, 1.25, 1.0, 1.125, 1.0, 1.125]),
        })
    );
    assert_eq!(convert(&TickGroup::new(Timestamp { millis: 0 }), &[AskBid::Ask]), Err(ConvertError::EmptyGroup));
}

#[test]
fn price_rank_follows_the_number() {
    let ordered = [f32::NEG_INFINITY, -1.0e30, -2.5, -1.0e-40, 0.0, 1.0e-40, 0.76541, 0.76551, 3.0e30, f32::INFINITY];
    for pair in ordered.windows(2) {
        assert!(Price::from_bits(pair[0].to_bits()).key() < Price::from_bits(pair[1].to_bits()).key());
    }
    assert_eq!(Price::from_bits(0.0f32.to_bits()).key(), Price::from_bits((-0.0f32).to_bits()).key());
    assert_eq!(Price::from_bits(1.0f32.to_bits()).key(), 0x3f80_0000);
    assert_eq!(Price::from_bits((-1.0f32).to_bits()).key(), -0x3f80_0000);
}
