use hieroglyphic::encoding::reencode_base32_as_base64;
use hieroglyphic::ranking::{rank, Score};
use hieroglyphic::worker::{newest, step, Action, Event};
use hieroglyphic::{Symbol, SymbolTable};

const ALPHA32: &str = "NRQXIZLYGJSS2T2UGEWV6YLMOBUGC";
const BETA32: &str = "NRQXIZLYGJSS2T2UGEWV6YTFORQQ";
const GAMMA32: &str = "NRQXIZLYGJSS2T2UGEWV6Z3BNVWWC";
const ALPHA: &str = "bGF0ZXgyZS1PVDEtX2FscGhh";
const BETA: &str = "bGF0ZXgyZS1PVDEtX2JldGE=";
const GAMMA: &str = "bGF0ZXgyZS1PVDEtX2dhbW1h";

fn greek() -> SymbolTable {
    SymbolTable::from_symbols(vec![
        Symbol::new("\\alpha", "latex2e", "OT1", false, true),
        Symbol::new("\\beta", "latex2e", "OT1", false, true),
        Symbol::new("\\gamma", "latex2e", "OT1", false, true),
    ])
    .unwrap()
}

fn score(id: &str, key: u64) -> Score {
    Score { id: id.to_string(), key }
}

#[test]
fn base32_identifiers_become_base64() {
    assert_eq!(
        reencode_base32_as_base64("NRQXIZLYGJSS2T2UGEWV65DFPB2GC43DNFUWG2LSMN2W2").as_deref(),
        Some("bGF0ZXgyZS1PVDEtX3RleHRhc2NpaWNpcmN1bQ==")
    );
    assert_eq!(reencode_base32_as_base64("MIWWGLLB").as_deref(), Some("Yi1jLWE="));
    assert_eq!(reencode_base32_as_base64("not base32!"), None);
}

#[test]
fn rank_orders_by_key() {
    let r = rank(&greek(), &vec![score(GAMMA32, 5), score(ALPHA32, 9), score(BETA32, 1)]);
    assert_eq!(r, vec![BETA, GAMMA, ALPHA]);
}

#[test]
fn rank_breaks_ties_by_table_position() {
    let r = rank(&greek(), &vec![score(GAMMA32, 3), score(BETA32, 3), score(ALPHA32, 3)]);
    assert_eq!(r, vec![ALPHA, BETA, GAMMA]);
}

#[test]
fn rank_keeps_lowest_key_per_symbol() {
    let r = rank(
        &greek(),
        &vec![score(ALPHA32, 10), score(BETA32, 4), score(ALPHA32, 2), score(ALPHA32, 7)],
    );
    assert_eq!(r, vec![ALPHA, BETA]);
}

#[test]
fn rank_drops_unknown_and_malformed_ids() {
    let r = rank(
        &greek(),
        &vec![score("MIWWGLLB", 0), score("???", 0), score(GAMMA32, 8)],
    );
    assert_eq!(r, vec![GAMMA]);
}

#[test]
fn rank_of_nothing_is_empty() {
    assert!(rank(&greek(), &Vec::new()).is_empty());
}

#[test]
fn rank_is_deterministic() {
    let scores = vec![score(GAMMA32, 3), score(BETA32, 3), score(ALPHA32, 1), score(BETA32, 3)];
    let table = greek();
    assert_eq!(rank(&table, &scores), rank(&table, &scores));
}

#[test]
fn empty_gesture_is_not_classified() {
    assert!(matches!(step(&greek(), Event::Request(0)), Action::Ignore));
}

#[test]
fn gesture_with_strokes_is_classified() {
    assert!(matches!(step(&greek(), Event::Request(2)), Action::Classify));
}

#[test]
fn hangup_stops_the_worker() {
    assert!(matches!(step(&greek(), Event::Hangup), Action::Stop));
}

#[test]
fn no_scores_give_no_result() {
    assert!(matches!(step(&greek(), Event::Scored(None)), Action::Reply(None)));
}

#[test]
fn scores_are_ranked_in_the_reply() {
    match step(&greek(), Event::Scored(Some(vec![score(ALPHA32, 4), score(GAMMA32, 2)]))) {
        Action::Reply(Some(ids)) => assert_eq!(ids, vec![GAMMA, ALPHA]),
        _ => panic!("expected a ranked reply"),
    }
}

#[test]
fn newest_reply_wins() {
    assert_eq!(newest(vec![1, 2, 3]), Some(3));
    assert_eq!(newest(Vec::<u8>::new()), None);
}
