use comal::channel_file::{ChannelFile, ChannelType};
use comal::templates::primitive::{Repsiggen, Token};

fn file(tp: &str, payload: &str) -> ChannelFile {
    ChannelFile { id: 3, tp: tp.to_string(), payload: payload.to_string() }
}

#[test]
fn payload_is_split_at_commas_and_trimmed() {
    let f = file("Coordinate", " 0, 1 ,S0,  D ");
    let items: Vec<String> = f.parse_payload(|s: &str| s.to_string());
    assert_eq!(items, vec!["0", "1", "S0", "D"]);
    assert_eq!(ChannelType::from_name(&f.tp), Ok(ChannelType::Coordinate));
    assert_eq!(ChannelType::from_name("coordinate"), Err(()));
}

#[test]
fn coordinate_channel_tokens() {
    let f = file("Reference", "0, 4, S0, N, D");
    assert_eq!(
        f.coordinate_tokens(),
        Some(vec![Token::Val(0), Token::Val(4), Token::Stop(0), Token::Empty, Token::Done])
    );
    assert_eq!(file("Reference", "0, x, D").coordinate_tokens(), None);
}

#[test]
fn repeat_channel_signals() {
    let f = file("Repeat", "R, R, S, D");
    assert_eq!(f.repeat_signals(), Some(vec![Repsiggen::Repeat, Repsiggen::Repeat, Repsiggen::Stop, Repsiggen::Done]));
    assert_eq!(file("Repeat", "R, Q").repeat_signals(), None);
}
