use approx::RelativeEq;
use unit_conversion::conversion::{ConversionGraph, ConversionResult, Unit, UnitConversion};
use unit_conversion::graph::Folded;
use unit_conversion::ratio::Ratio;

fn query(from: &str, to: &str, value: Ratio) -> UnitConversion {
    UnitConversion::new(from, to, value).unwrap()
}

fn test_graph() -> ConversionGraph {
    ConversionGraph::new(vec![
        query("m", "ft", Ratio::new(328, 100)),
        query("ft", "in", Ratio::new(12, 1)),
        query("hr", "min", Ratio::new(60, 1)),
        query("min", "sec", Ratio::new(60, 1)),
    ])
}

fn answer(res: ConversionResult) -> Ratio {
    match res.0 {
        Folded::Value(r) => r,
        other => panic!("no answer: {:?}", other),
    }
}

fn as_f32(r: Ratio) -> f32 {
    r.num as f32 / r.den as f32
}

fn close(a: f32, b: f32) -> bool {
    f32::relative_eq(&a, &b, f32::EPSILON, f32::EPSILON)
}

#[test]
fn it_works_for_m_to_in() {
    let res = test_graph().convert(query("m", "in", Ratio::new(2, 1)));

    assert!(close(as_f32(answer(res)), 78.72));
}

#[test]
fn it_works_for_in_to_m() {
    let res = test_graph().convert(query("in", "m", Ratio::new(13, 1)));

    assert!(close(as_f32(answer(res)), 0.33028457));
}

#[test]
fn it_works_for_sec_to_hr() {
    let res = test_graph().convert(query("sec", "hr", Ratio::new(3600, 1)));

    assert!(close(as_f32(answer(res)), 1.0));
}

#[test]
fn it_correctly_does_not_work_for_in_to_hr() {
    let res = test_graph().convert(query("in", "hr", Ratio::new(13, 1)));

    assert_eq!(res, ConversionResult(Folded::NoPath));
}

#[test]
fn m_to_in_is_exact() {
    let r = answer(test_graph().convert(query("m", "in", Ratio::new(2, 1))));
    assert_eq!((r.num, r.den), (7872, 100));
}

#[test]
fn in_to_m_is_exact() {
    let r = answer(test_graph().convert(query("in", "m", Ratio::new(13, 1))));
    assert_eq!((r.num, r.den), (1300, 3936));
}

#[test]
fn direct_fact_forward_and_back() {
    let g = test_graph();
    let f = answer(g.convert(query("m", "ft", Ratio::new(5, 1))));
    assert_eq!((f.num, f.den), (5 * 328, 100));
    let b = answer(g.convert(query("ft", "m", Ratio::new(5, 1))));
    assert_eq!((b.num, b.den), (5 * 100, 328));
}

#[test]
fn transitive_chain_over_two_hops() {
    let r = answer(test_graph().convert(query("hr", "sec", Ratio::new(2, 1))));
    assert_eq!((r.num, r.den), (7200, 1));
}

#[test]
fn scaling_the_query_scales_the_answer() {
    let g = test_graph();
    let one = answer(g.convert(query("in", "m", Ratio::new(13, 1))));
    let scaled = answer(g.convert(query("in", "m", Ratio::new(13 * 7, 2))));
    assert_eq!((scaled.num, scaled.den), (one.num * 7, one.den * 2));
}

#[test]
fn unit_to_itself_is_identity() {
    let r = answer(test_graph().convert(query("min", "min", Ratio::new(42, 5))));
    assert_eq!((r.num, r.den), (42, 5));
}

#[test]
fn unit_absent_from_facts_is_not_convertible() {
    let g = ConversionGraph::new(vec![query("m", "ft", Ratio::new(328, 100))]);
    assert_eq!(g.convert(query("sec", "sec", Ratio::new(1, 1))), ConversionResult(Folded::NoPath));
    assert_eq!(g.convert(query("m", "sec", Ratio::new(1, 1))), ConversionResult(Folded::NoPath));
}

#[test]
fn empty_fact_list_converts_nothing() {
    let g = ConversionGraph::new(vec![]);
    assert_eq!(g.convert(query("m", "ft", Ratio::new(1, 1))), ConversionResult(Folded::NoPath));
}

#[test]
fn unknown_from_token_is_rejected() {
    let e = UnitConversion::new("yd", "m", Ratio::new(1, 1)).unwrap_err();
    assert_eq!(e.token, "yd");
}

#[test]
fn unknown_to_token_is_rejected() {
    let e = UnitConversion::new("m", "furlong", Ratio::new(1, 1)).unwrap_err();
    assert_eq!(e.token, "furlong");
}

#[test]
fn first_unknown_token_is_reported() {
    let e = UnitConversion::new("", "M", Ratio::new(1, 1)).unwrap_err();
    assert_eq!(e.token, "");
}

#[test]
fn every_vocabulary_token_is_accepted() {
    assert_eq!(Unit::from_token("m"), Some(Unit::M));
    assert_eq!(Unit::from_token("in"), Some(Unit::In));
    assert_eq!(Unit::from_token("ft"), Some(Unit::Ft));
    assert_eq!(Unit::from_token("hr"), Some(Unit::Hr));
    assert_eq!(Unit::from_token("min"), Some(Unit::Min));
    assert_eq!(Unit::from_token("sec"), Some(Unit::Sec));
    assert_eq!(Unit::from_token("mi"), None);
    assert_eq!(Unit::from_token("secs"), None);
}

#[test]
fn unit_keys_are_distinct() {
    let units = [Unit::M, Unit::In, Unit::Ft, Unit::Hr, Unit::Min, Unit::Sec];
    for (i, a) in units.iter().enumerate() {
        for b in units.iter().skip(i + 1) {
            assert_ne!(a.key(), b.key());
        }
    }
}
