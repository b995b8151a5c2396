use porecrusher::utils::io::{Msg, Reporter};
use std::sync::mpsc::channel;

#[test]
fn heading_frames_the_text() {
    let m = Msg::new("Porosity".to_owned()).make_heading();
    let rule = format!("!{}!\n", "-".repeat(80));
    let middle = format!("! Porosity{}!\n", " ".repeat(71));
    assert_eq!(m.as_str(), format!("{rule}{middle}{rule}"));
    for line in m.as_str().lines() {
        assert_eq!(line.len(), 82);
    }
}

#[test]
fn heading_of_the_longest_text() {
    let text = "x".repeat(79);
    let m = Msg::new(text.clone()).make_heading();
    assert!(m.as_str().contains(&format!("! {text}!\n")));
}

#[test]
fn msg_from_string() {
    let m: Msg = String::from("done").into();
    assert_eq!(m.as_str(), "done");
    assert_eq!(Msg::from(String::from("a b")).as_str(), "a b");
}

#[test]
fn reporter_passes_messages_on_and_ends_when_senders_are_gone() {
    let (tx, rx) = channel();
    let reporter = Reporter::new(rx);
    tx.send(Msg::new("first".to_owned())).unwrap();
    tx.send(Msg::new("second".to_owned())).unwrap();
    assert_eq!(reporter.next().unwrap().as_str(), "first");
    assert_eq!(reporter.next().unwrap().as_str(), "second");
    drop(tx);
    assert!(reporter.next().is_err());
}
