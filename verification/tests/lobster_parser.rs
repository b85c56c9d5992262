use lob_engine::lobster_parser::{parse_message_lines, parse_message_row, parse_message_row_with_line};
use lob_engine::market_events::{MarketEvent, Side};

#[test]
fn parses_add_limit_row() {
    let event = parse_message_row("34200.004241176,1,16113575,18,5853300,1").unwrap();

    assert_eq!(
        event,
        MarketEvent::AddLimit {
            ts: 34_200_004_241_176,
            order_id: 16_113_575,
            side: Side::Buy,
            price: 5_853_300,
            qty: 18
        }
    );
}

#[test]
fn parses_visible_execution_row() {
    let event = parse_message_row("34200.189608068,4,16113798,9,5853000,-1").unwrap();

    assert_eq!(
        event,
        MarketEvent::VisibleExecution {
            ts: 34_200_189_608_068,
            order_id: 16_113_798,
            qty: 9,
            price: 5_853_000,
            side: Side::Sell
        }
    );
}

#[test]
fn rejects_malformed_row() {
    let err = parse_message_row("34200.0,1,1").unwrap_err();
    assert_eq!(err.line(), 1);
}

#[test]
fn rejects_unknown_event_type_with_its_line() {
    let err = parse_message_row_with_line("34200.5,9,1,1,100,1", 7).unwrap_err();
    assert_eq!(err.line(), 7);
}

#[test]
fn parses_halt_and_short_fraction() {
    let event = parse_message_row("34200.5,7,0,0,-1,-1").unwrap();
    assert_eq!(event, MarketEvent::TradingHalt { ts: 34_200_500_000_000 });
}

#[test]
fn numbered_lines_report_the_failing_line() {
    let lines = vec![
        "34200.004241176,1,16113575,18,5853300,1".to_string(),
        "34200.1,3,16113575,18,5853300,1".to_string(),
        "bad".to_string(),
    ];
    let err = parse_message_lines(&lines).unwrap_err();
    assert_eq!(err.line(), 3);
    let events = parse_message_lines(&lines[..2].to_vec()).unwrap();
    assert_eq!(events.len(), 2);
}
