use hieroglyphic::ranking::{rank, Score};
use hieroglyphic::SymbolTable;

fn stroke(points: &[(f64, f64)]) -> detexify::Stroke {
    detexify::Stroke::new(points.iter().map(|&(x, y)| detexify::Point { x, y }).collect())
}

fn ranked(strokes: Vec<detexify::Stroke>) -> Option<Vec<String>> {
    let table = SymbolTable::reference();
    let classifier = detexify::Classifier::default();
    let sample = detexify::StrokeSample::new(strokes)?;
    let scores: Vec<Score> = classifier
        .classify(sample)?
        .into_iter()
        .map(|s| Score { id: s.id, key: s.score.to_bits() })
        .collect();
    Some(rank(&table, &scores))
}

#[test]
fn reproduced_corpus_sample_ranks_its_symbol_near_the_top() {
    let gesture = vec![
        stroke(&[(0.8626302083333334, 0.0546875), (0.6651941535620954, 0.13482243492374596), (0.4443703751153187, 0.1543818144306317), (0.24855215327158572, 0.06782490921803669), (0.24758282804646617, 0.11030309390706759), (0.13857817906945288, 0.28584013359257), (0.25617521562667933, 0.3448584792002539), (0.2610677083333333, 0.7987505157601209), (0.17903645833333365, 0.9999999999999997)]),
        stroke(&[(0.07446808510638298, 0.46099290780141844), (0.5295394015835924, 0.03489854095827638), (0.7013516700079191, 0.06700594048865179), (0.9082955743426069, 0.40713324659573646), (0.8856655524081036, 0.825163828178734), (0.769503546099291, 0.9999999999999997)]),
    ];
    let ids = ranked(gesture.clone()).unwrap();
    let place = ids.iter().position(|id| id == "YW1zc3ltYi1PVDEtX21hdGhmcmFre0h9");
    assert!(matches!(place, Some(p) if p < 3), "ranked at {:?}", place);
    assert_eq!(ranked(gesture), Some(ids));
}

#[test]
fn empty_gesture_has_no_sample() {
    assert!(ranked(Vec::new()).is_none());
}
