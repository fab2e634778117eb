use travel_ura::error::Error;
use travel_ura::prediction::Prediction;
use travel_ura::request::{carries_feed, Reply, Request};
use travel_ura::time::datetime_from_millis;

fn lines(texts: &[&str]) -> Vec<String> {
    texts.iter().map(|t| t.to_string()).collect()
}

fn named(name: &str) -> Request {
    Request::with_stop_point_name(name.to_string())
}

fn unnamed() -> Request {
    Request { stop_point_name: None }
}

#[test]
fn request_holds_the_name_of_its_stop() {
    assert_eq!(named("Bushof").stop_point_name, Some("Bushof".to_string()));
    assert_eq!(named("").stop_point_name, Some(String::new()));
}

#[test]
fn url_of_a_named_stop() {
    assert_eq!(
        named("Bushof").url("http://ivu.aseag.de/interfaces/ura/instant_V1?"),
        "http://ivu.aseag.de/interfaces/ura/instant_V1?ReturnList=StopPointName,LineName,DestinationText,EstimatedTime,TripID&StopPointName=Bushof"
    );
}

#[test]
fn url_without_a_stop() {
    assert_eq!(
        unnamed().url("http://example.org/ura?"),
        "http://example.org/ura?ReturnList=StopPointName,LineName,DestinationText,EstimatedTime,TripID"
    );
    assert_eq!(unnamed().url(""), "ReturnList=StopPointName,LineName,DestinationText,EstimatedTime,TripID");
}

#[test]
fn url_takes_the_name_as_it_is() {
    assert_eq!(
        named("Aachen Hbf & Co").url("x?"),
        "x?ReturnList=StopPointName,LineName,DestinationText,EstimatedTime,TripID&StopPointName=Aachen Hbf & Co"
    );
}

#[test]
fn answer_with_success_is_read_as_a_feed() {
    let reply = Reply::Answer {
        status: 200,
        lines: lines(&["[4,\"1.0\",1000]", "[1,\"Bushof\",\"33\",\"Fuchserde\",7001,61000]"]),
    };
    let predictions = named("Bushof").receive(reply).unwrap();
    assert_eq!(predictions.time, datetime_from_millis(1000));
    assert_eq!(
        predictions.predictions,
        vec![Prediction {
            stop_point_name: "Bushof".to_string(),
            line_name: "33".to_string(),
            destination_text: "Fuchserde".to_string(),
            trip_id: 7001,
            estimated_time: datetime_from_millis(61000),
        }]
    );
}

#[test]
fn answer_with_success_and_a_bad_body_is_a_format_error() {
    assert_eq!(named("Bushof").receive(Reply::Answer { status: 200, lines: vec![] }), Err(Error::FeedFormat));
    assert_eq!(
        unnamed().receive(Reply::Answer { status: 200, lines: lines(&["<html>"]) }),
        Err(Error::FeedFormat)
    );
}

#[test]
fn rejected_filter_with_a_stop_name_is_an_unknown_stop() {
    let reply = Reply::Answer { status: 416, lines: vec![] };
    assert_eq!(named("Nirgendwo").receive(reply), Err(Error::BadStopPointName("Nirgendwo".to_string())));
}

#[test]
fn rejected_filter_without_a_stop_name_is_an_unknown_status() {
    let reply = Reply::Answer { status: 416, lines: vec![] };
    assert_eq!(unnamed().receive(reply), Err(Error::UnknownStatus(416)));
}

#[test]
fn other_statuses_are_unknown() {
    for status in [0u16, 100, 199, 201, 204, 301, 400, 404, 415, 417, 500, 503, 65535] {
        let body = lines(&["[4,\"1.0\",1000]"]);
        assert_eq!(
            named("Bushof").receive(Reply::Answer { status, lines: body.clone() }),
            Err(Error::UnknownStatus(status))
        );
        assert_eq!(unnamed().receive(Reply::Answer { status, lines: body }), Err(Error::UnknownStatus(status)));
    }
}

#[test]
fn failed_exchange_is_a_transport_error() {
    assert_eq!(
        named("Bushof").receive(Reply::Failure("connection refused".to_string())),
        Err(Error::Transport("connection refused".to_string()))
    );
    assert_eq!(unnamed().receive(Reply::Failure(String::new())), Err(Error::Transport(String::new())));
}

#[test]
fn only_success_carries_a_feed() {
    assert!(carries_feed(200));
    for status in [0u16, 199, 201, 204, 206, 304, 404, 416, 500, 65535] {
        assert!(!carries_feed(status));
    }
}
