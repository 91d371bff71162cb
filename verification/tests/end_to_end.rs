use station_stats::batch::{aggregate_lines, ingest, merge_into, summarize, Failure};
use station_stats::number::Number;
use station_stats::record::MalformedRecord;
use station_stats::state::AggregationState;

fn lines(input: &[&str]) -> Vec<Vec<u8>> {
    input.iter().map(|l| l.as_bytes().to_vec()).collect()
}

fn text(out: Vec<u8>) -> String {
    String::from_utf8(out).unwrap()
}

#[test]
fn single_record() {
    let out = text(summarize(&lines(&["Paris;10.5"])).unwrap());
    assert!(out.contains("Paris=10.5/10.5/10.5"));
    assert_eq!(out, "{Paris=10.5/10.5/10.5, }");
}

#[test]
fn mixed_sign_and_repeated_key() {
    let state = aggregate_lines(&lines(&["X;5.0", "X;-3.0", "X;1.0"])).unwrap();
    let x = state.get(b"X").unwrap();
    assert_eq!(x.min, Number::Finite(-3000));
    assert_eq!(x.max, Number::Finite(5000));
    assert_eq!(x.sum, Number::Finite(3000));
    assert_eq!(x.count, 3);
    assert_eq!(x.mean(), Number::Finite(1000));
    assert_eq!(text(station_stats::report::format(&state)), "{X=-3/1/5, }");
}

#[test]
fn two_station_end_to_end() {
    let out = summarize(&lines(&["Tokyo;20.0", "Oslo;5.0", "Tokyo;30.0"])).unwrap();
    assert_eq!(text(out), "{Oslo=5/5/5, Tokyo=20/25/30, }");
}

#[test]
fn empty_input_gives_empty_braces() {
    assert_eq!(text(summarize(&lines(&[])).unwrap()), "{}");
}

#[test]
fn line_without_separator_ends_the_run() {
    let r = summarize(&lines(&["Oslo;5.0", "Tokyo 20.0", "Paris;1.0"]));
    assert_eq!(r, Err(Failure { line: 1, cause: MalformedRecord::MissingSeparator }));
}

#[test]
fn non_numeric_value_ends_the_run() {
    let r = summarize(&lines(&["Oslo;5.0", "Paris;1.0", "Tokyo;warm"]));
    assert_eq!(r, Err(Failure { line: 2, cause: MalformedRecord::InvalidTemperature }));
}

#[test]
fn first_malformed_line_is_reported() {
    let r = aggregate_lines(&lines(&["a;x", "b"]));
    assert!(matches!(r, Err(Failure { line: 0, cause: MalformedRecord::InvalidTemperature })));
}

#[test]
fn exponent_forms_are_rejected() {
    for word in ["1e3", "1E3", "1.5e-2", "e", "nano", "infinite", "in", "na"] {
        let line = format!("X;{}", word);
        let r = summarize(&lines(&[line.as_str()]));
        assert_eq!(r, Err(Failure { line: 0, cause: MalformedRecord::InvalidTemperature }));
    }
}

#[test]
fn not_a_number_is_taken_as_a_value() {
    assert_eq!(text(summarize(&lines(&["X;NaN"])).unwrap()), "{X=NaN/NaN/NaN, }");
    for word in ["NaN", "nan", "NAN", "+nan", "-NaN"] {
        let line = format!("X;{}", word);
        let state = aggregate_lines(&lines(&[line.as_str()])).unwrap();
        let x = state.get(b"X").unwrap();
        assert_eq!((x.min, x.sum, x.max, x.count), (Number::NotANumber, Number::NotANumber, Number::NotANumber, 1));
    }
}

#[test]
fn minimum_and_maximum_pass_over_what_is_no_number() {
    let out = summarize(&lines(&["X;NaN", "X;5.0", "Y;5.0", "Y;nan", "Y;1.0"])).unwrap();
    assert_eq!(text(out), "{X=5/NaN/5, Y=1/NaN/5, }");
    let state = aggregate_lines(&lines(&["Y;5.0", "Y;nan", "Y;1.0"])).unwrap();
    let y = state.get(b"Y").unwrap();
    assert_eq!(y.min, Number::Finite(1000));
    assert_eq!(y.max, Number::Finite(5000));
    assert_eq!(y.sum, Number::NotANumber);
    assert_eq!(y.mean(), Number::NotANumber);
    assert_eq!(y.count, 3);
}

#[test]
fn a_number_too_large_is_folded_as_infinity() {
    let out = summarize(&lines(&[
        "a;9223372036854776", "a;1.0", "b;-340282350000000000000000000000000000000.0", "b;2.5",
        "c;9223372036854775.807", "c;9223372036854775.807",
    ]))
    .unwrap();
    assert_eq!(
        text(out),
        "{a=1/inf/inf, b=-inf/-inf/2.5, c=9223372036854775.807/9223372036854775.807/9223372036854775.807, }"
    );
}

#[test]
fn infinities_are_taken_as_values() {
    let out = summarize(&lines(&[
        "a;inf", "a;1.0", "b;-inf", "b;1.0", "c;Infinity", "c;-INFINITY", "d;+inf", "d;+iNf", "e;-inf", "e;NaN",
    ]))
    .unwrap();
    assert_eq!(
        text(out),
        "{a=1/inf/inf, b=-inf/-inf/1, c=-inf/NaN/inf, d=inf/inf/inf, e=-inf/NaN/-inf, }"
    );
}

#[test]
fn ingest_leaves_the_state_on_a_malformed_line() {
    let mut state = AggregationState::new();
    assert_eq!(ingest(&mut state, b"Oslo;5.0"), Ok(()));
    assert_eq!(ingest(&mut state, b"Oslo"), Err(MalformedRecord::MissingSeparator));
    assert_eq!(ingest(&mut state, b"Oslo;"), Err(MalformedRecord::InvalidTemperature));
    assert_eq!(state.len(), 1);
    let oslo = state.get(b"Oslo").unwrap();
    assert_eq!((oslo.min, oslo.sum, oslo.max, oslo.count), (Number::Finite(5000), Number::Finite(5000), Number::Finite(5000), 1));
}

#[test]
fn output_is_sorted_whatever_the_input_order() {
    let a = summarize(&lines(&["b;1.0", "a;2.0", "ab;3.0", "B;4.0", "a;4.0"])).unwrap();
    let b = summarize(&lines(&["a;4.0", "B;4.0", "ab;3.0", "a;2.0", "b;1.0"])).unwrap();
    assert_eq!(a, b);
    assert_eq!(text(a), "{B=4/4/4, a=2/3/4, ab=3/3/3, b=1/1/1, }");
}

#[test]
fn names_are_ordered_by_their_bytes() {
    let out = summarize(&lines(&["Zürich;1.0", "Zagreb;2.0", "Zz;3.0", "Z;4.0", "Århus;5.0"])).unwrap();
    assert_eq!(text(out), "{Z=4/4/4, Zagreb=2/2/2, Zz=3/3/3, Zürich=1/1/1, Århus=5/5/5, }");
}

#[test]
fn same_reading_folded_many_times() {
    let mut state = AggregationState::new();
    for _ in 0..7 {
        state.fold(b"K", Number::Finite(-123));
    }
    assert_eq!(state.len(), 1);
    let k = state.get(b"K").unwrap();
    assert_eq!(k.min, Number::Finite(-123));
    assert_eq!(k.max, Number::Finite(-123));
    assert_eq!(k.sum, Number::Finite(7 * -123));
    assert_eq!(k.count, 7);
    assert_eq!(k.mean(), Number::Finite(-123));
}

#[test]
fn merging_chunks_equals_aggregating_the_whole() {
    let all = ["a;1.5", "b;-2.0", "a;3.0", "c;0.0", "b;7.5", "a;-9.9", "d;4.4"];
    let whole = aggregate_lines(&lines(&all)).unwrap();
    for cut in 0..=all.len() {
        let mut left = aggregate_lines(&lines(&all[..cut])).unwrap();
        let right = aggregate_lines(&lines(&all[cut..])).unwrap();
        merge_into(&mut left, &right);
        assert_eq!(left.len(), whole.len());
        for key in [&b"a"[..], &b"b"[..], &b"c"[..], &b"d"[..]] {
            assert_eq!(left.get(key), whole.get(key));
        }
        assert_eq!(station_stats::report::format(&left), station_stats::report::format(&whole));
    }
}

#[test]
fn merging_in_either_order_gives_the_same_state() {
    let first = lines(&["a;1.0", "b;2.0"]);
    let second = lines(&["b;-5.0", "c;3.0"]);
    let mut one = aggregate_lines(&first).unwrap();
    merge_into(&mut one, &aggregate_lines(&second).unwrap());
    let mut two = aggregate_lines(&second).unwrap();
    merge_into(&mut two, &aggregate_lines(&first).unwrap());
    assert_eq!(text(station_stats::report::format(&one)), "{a=1/1/1, b=-5/-1.5/2, c=3/3/3, }");
    assert_eq!(station_stats::report::format(&one), station_stats::report::format(&two));
}

#[test]
fn merging_three_chunks_in_any_grouping() {
    let a = lines(&["x;1.0", "y;2.0"]);
    let b = lines(&["x;3.0"]);
    let c = lines(&["y;-4.0", "z;0.5"]);
    let mut left = aggregate_lines(&a).unwrap();
    merge_into(&mut left, &aggregate_lines(&b).unwrap());
    merge_into(&mut left, &aggregate_lines(&c).unwrap());
    let mut bc = aggregate_lines(&b).unwrap();
    merge_into(&mut bc, &aggregate_lines(&c).unwrap());
    let mut right = aggregate_lines(&a).unwrap();
    merge_into(&mut right, &bc);
    assert_eq!(station_stats::report::format(&left), station_stats::report::format(&right));
    assert_eq!(text(station_stats::report::format(&left)), "{x=1/2/3, y=-4/-1/2, z=0.5/0.5/0.5, }");
}

#[test]
fn mean_is_given_to_the_nearest_thousandth() {
    let out = summarize(&lines(&[
        "p;0.1", "p;0.2", "n;-0.1", "n;-0.2", "t;1.0", "t;1.0", "t;2.0", "m;-1.0", "m;-1.0", "m;-2.0",
        "h;0.001", "h;0.002", "g;-0.001", "g;-0.002", "u;2.0", "u;2.0", "u;1.0",
    ]))
    .unwrap();
    assert_eq!(
        text(out),
        "{g=-0.002/-0.002/-0.001, h=0.001/0.002/0.002, m=-2/-1.333/-1, n=-0.2/-0.15/-0.1, p=0.1/0.15/0.2, t=1/1.333/2, u=1/1.667/2, }"
    );
}

#[test]
fn same_special_reading_folded_many_times() {
    for value in [Number::NotANumber, Number::PlusInfinity, Number::MinusInfinity] {
        let mut state = AggregationState::new();
        for _ in 0..4 {
            state.fold(b"K", value);
        }
        let k = state.get(b"K").unwrap();
        assert_eq!((k.min, k.sum, k.max, k.count), (value, value, value, 4));
        assert_eq!(k.mean(), value);
    }
}

#[test]
fn merging_chunks_with_special_readings() {
    let all = ["a;1.5", "a;NaN", "b;inf", "a;3.0", "b;-inf", "c;inf", "b;7.5", "c;2.0"];
    let whole = aggregate_lines(&lines(&all)).unwrap();
    assert_eq!(
        text(station_stats::report::format(&whole)),
        "{a=1.5/NaN/3, b=-inf/NaN/inf, c=2/inf/inf, }"
    );
    for cut in 0..=all.len() {
        let mut left = aggregate_lines(&lines(&all[..cut])).unwrap();
        let right = aggregate_lines(&lines(&all[cut..])).unwrap();
        merge_into(&mut left, &right);
        assert_eq!(station_stats::report::format(&left), station_stats::report::format(&whole));
        let mut back = aggregate_lines(&lines(&all[cut..])).unwrap();
        merge_into(&mut back, &aggregate_lines(&lines(&all[..cut])).unwrap());
        assert_eq!(station_stats::report::format(&back), station_stats::report::format(&whole));
    }
}
