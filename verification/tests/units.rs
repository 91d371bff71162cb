use station_stats::decimal::{
    digits_to_number, find_byte, has_decimal_shape, lower, only_digits, parse_decimal, parse_number,
    render_decimal, render_number, split_at_point,
};
use station_stats::number::Number;
use station_stats::order::{rank, Rank};
use station_stats::record::{parse_temperature_line, MalformedRecord};
use station_stats::state::AggregationState;
use station_stats::stats::StationStats;

fn shown(v: i64) -> String {
    String::from_utf8(render_decimal(v)).unwrap()
}

#[test]
fn rank_orders_bytes_lexicographically() {
    assert_eq!(rank(b"", b""), Rank::Same);
    assert_eq!(rank(b"", b"a"), Rank::Before);
    assert_eq!(rank(b"a", b""), Rank::After);
    assert_eq!(rank(b"abc", b"abc"), Rank::Same);
    assert_eq!(rank(b"ab", b"abc"), Rank::Before);
    assert_eq!(rank(b"abd", b"abc"), Rank::After);
    assert_eq!(rank(b"B", b"a"), Rank::Before);
    assert_eq!(rank(&[0xff], &[0x7f, 0x00]), Rank::After);
}

#[test]
fn find_byte_gives_the_first_place() {
    assert_eq!(find_byte(b"a;b;c", b';'), 1);
    assert_eq!(find_byte(b";", b';'), 0);
    assert_eq!(find_byte(b"abc", b';'), 3);
    assert_eq!(find_byte(b"", b';'), 0);
}

#[test]
fn only_digits_checks_every_byte() {
    assert!(only_digits(b""));
    assert!(only_digits(b"0123456789"));
    assert!(!only_digits(b"12a"));
    assert!(!only_digits(b"/"));
    assert!(!only_digits(b":"));
}

#[test]
fn digits_to_number_respects_the_limit() {
    assert_eq!(digits_to_number(b"", 10), Some(0));
    assert_eq!(digits_to_number(b"10", 10), Some(10));
    assert_eq!(digits_to_number(b"11", 10), None);
    assert_eq!(digits_to_number(b"0000123", 123), Some(123));
    assert_eq!(digits_to_number(b"18446744073709551615", u64::MAX), Some(u64::MAX));
    assert_eq!(digits_to_number(b"18446744073709551616", u64::MAX), None);
}

#[test]
fn parse_decimal_reads_thousandths() {
    assert_eq!(parse_decimal(b"10.5"), Some(10500));
    assert_eq!(parse_decimal(b"5.0"), Some(5000));
    assert_eq!(parse_decimal(b"-3.0"), Some(-3000));
    assert_eq!(parse_decimal(b"20"), Some(20000));
    assert_eq!(parse_decimal(b"+7.2"), Some(7200));
    assert_eq!(parse_decimal(b"5."), Some(5000));
    assert_eq!(parse_decimal(b".5"), Some(500));
    assert_eq!(parse_decimal(b"-.5"), Some(-500));
    assert_eq!(parse_decimal(b"-0.0"), Some(0));
    assert_eq!(parse_decimal(b"007.1"), Some(7100));
    assert_eq!(parse_decimal(b"1.05"), Some(1050));
    assert_eq!(parse_decimal(b"1.005"), Some(1005));
    assert_eq!(parse_decimal(b"-1.234"), Some(-1234));
}

#[test]
fn parse_decimal_reads_the_nearest_thousandth() {
    assert_eq!(parse_decimal(b"10.5999"), Some(10600));
    assert_eq!(parse_decimal(b"-10.5999"), Some(-10600));
    assert_eq!(parse_decimal(b"0.0009"), Some(1));
    assert_eq!(parse_decimal(b"0.0004"), Some(0));
    assert_eq!(parse_decimal(b"0.0005"), Some(1));
    assert_eq!(parse_decimal(b"-0.0005"), Some(-1));
    assert_eq!(parse_decimal(b"0.00049999"), Some(0));
    assert_eq!(parse_decimal(b"1.9995"), Some(2000));
    assert_eq!(parse_decimal(b"3.14159265358979323846"), Some(3142));
}

#[test]
fn parse_decimal_refuses_what_is_no_number() {
    for bad in [
        &b""[..], b"-", b"+", b".", b"-.", b"abc", b"1.2.3", b"1,5", b" 1.5", b"1.5 ", b"--1", b"+-1",
        b"1.5x", b"1.x", b"x.5", b"1e5", b"NaN", b"inf", b"1.0;2",
    ] {
        assert_eq!(parse_decimal(bad), None);
    }
}

#[test]
fn parse_decimal_at_the_limits() {
    assert_eq!(parse_decimal(b"9223372036854775.807"), Some(i64::MAX));
    assert_eq!(parse_decimal(b"-9223372036854775.807"), Some(-i64::MAX));
    assert_eq!(parse_decimal(b"9223372036854775.808"), None);
    assert_eq!(parse_decimal(b"-9223372036854775.808"), None);
    assert_eq!(parse_decimal(b"9223372036854775.8074"), Some(i64::MAX));
    assert_eq!(parse_decimal(b"9223372036854775.8075"), None);
    assert_eq!(parse_decimal(b"9223372036854776"), None);
    assert_eq!(parse_decimal(b"99999999999999999999999999"), None);
}

#[test]
fn render_decimal_writes_thousandths() {
    assert_eq!(shown(0), "0");
    assert_eq!(shown(500), "0.5");
    assert_eq!(shown(-500), "-0.5");
    assert_eq!(shown(5000), "5");
    assert_eq!(shown(10500), "10.5");
    assert_eq!(shown(-3000), "-3");
    assert_eq!(shown(-123400), "-123.4");
    assert_eq!(shown(1), "0.001");
    assert_eq!(shown(10), "0.01");
    assert_eq!(shown(100), "0.1");
    assert_eq!(shown(1050), "1.05");
    assert_eq!(shown(1005), "1.005");
    assert_eq!(shown(-1234), "-1.234");
    assert_eq!(shown(120000), "120");
    assert_eq!(shown(i64::MAX), "9223372036854775.807");
    assert_eq!(shown(i64::MIN), "-9223372036854775.808");
}

#[test]
fn rendered_numbers_read_back() {
    for v in [0i64, 1, -1, 9, 10, -10, 99, 100, 101, -999, 12345, i64::MAX, -i64::MAX] {
        assert_eq!(parse_decimal(&render_decimal(v)), Some(v));
    }
}

#[test]
fn parse_line_splits_at_the_first_separator() {
    let (name, value) = parse_temperature_line(b"Paris;10.5").unwrap();
    assert_eq!(name, b"Paris");
    assert_eq!(value, Number::Finite(10500));
    let (name, value) = parse_temperature_line(b";1.0").unwrap();
    assert_eq!(name, b"");
    assert_eq!(value, Number::Finite(1000));
    let (name, value) = parse_temperature_line(b" St. John's ;-0.1").unwrap();
    assert_eq!(name, b" St. John's ");
    assert_eq!(value, Number::Finite(-100));
    assert_eq!(parse_temperature_line(b"X;NaN"), Ok((&b"X"[..], Number::NotANumber)));
    assert_eq!(parse_temperature_line(b"X;-inf"), Ok((&b"X"[..], Number::MinusInfinity)));
    assert_eq!(parse_temperature_line(b"X;0.0009"), Ok((&b"X"[..], Number::Finite(1))));
    assert_eq!(parse_temperature_line(b"X;9223372036854776"), Ok((&b"X"[..], Number::PlusInfinity)));
    assert_eq!(parse_temperature_line(b"X;-9223372036854776.0"), Ok((&b"X"[..], Number::MinusInfinity)));
}

#[test]
fn parse_line_names_the_fault() {
    assert_eq!(parse_temperature_line(b""), Err(MalformedRecord::MissingSeparator));
    assert_eq!(parse_temperature_line(b"Paris 10.5"), Err(MalformedRecord::MissingSeparator));
    assert_eq!(parse_temperature_line(b"Paris;"), Err(MalformedRecord::InvalidTemperature));
    assert_eq!(parse_temperature_line(b"Paris;ten"), Err(MalformedRecord::InvalidTemperature));
    assert_eq!(parse_temperature_line(b"Paris;1.0;2.0"), Err(MalformedRecord::InvalidTemperature));
    assert_eq!(parse_temperature_line(b"Paris;;1.0"), Err(MalformedRecord::InvalidTemperature));
}

#[test]
fn lower_changes_capital_letters_only() {
    assert_eq!(lower(b'A'), b'a');
    assert_eq!(lower(b'Z'), b'z');
    assert_eq!(lower(b'n'), b'n');
    assert_eq!(lower(b'@'), b'@');
    assert_eq!(lower(b'['), b'[');
    assert_eq!(lower(b'5'), b'5');
}

#[test]
fn parse_number_reads_numbers_and_words() {
    assert_eq!(parse_number(b"10.5"), Some(Number::Finite(10500)));
    assert_eq!(parse_number(b"-0.0009"), Some(Number::Finite(-1)));
    for word in [&b"inf"[..], b"INF", b"Inf", b"+inf", b"infinity", b"+InFiNiTy"] {
        assert_eq!(parse_number(word), Some(Number::PlusInfinity));
    }
    for word in [&b"-inf"[..], b"-INFINITY"] {
        assert_eq!(parse_number(word), Some(Number::MinusInfinity));
    }
    for word in [&b"nan"[..], b"NaN", b"+NAN", b"-nan"] {
        assert_eq!(parse_number(word), Some(Number::NotANumber));
    }
    for bad in [&b""[..], b"in", b"infi", b"infinit", b"infinityy", b"na", b"nann", b"++inf", b"i", b"1e5", b"x"] {
        assert_eq!(parse_number(bad), None);
    }
}

#[test]
fn split_at_point_leaves_the_sign_out() {
    assert_eq!(split_at_point(b"-12.345"), (&b"12"[..], &b"345"[..]));
    assert_eq!(split_at_point(b"+7"), (&b"7"[..], &b""[..]));
    assert_eq!(split_at_point(b"7."), (&b"7"[..], &b""[..]));
    assert_eq!(split_at_point(b".5"), (&b""[..], &b"5"[..]));
    assert_eq!(split_at_point(b"1.2.3"), (&b"1"[..], &b"2.3"[..]));
    assert_eq!(split_at_point(b""), (&b""[..], &b""[..]));
}

#[test]
fn has_decimal_shape_tells_numbers_from_other_text() {
    for good in [&b"0"[..], b"-1.5", b"+.5", b"5.", b"99999999999999999999999999.123456789"] {
        assert!(has_decimal_shape(good));
    }
    for bad in [&b""[..], b"-", b".", b"1.2.3", b"1e5", b"inf", b"1,5", b" 1"] {
        assert!(!has_decimal_shape(bad));
    }
}

#[test]
fn parse_number_reads_a_number_too_large_as_infinity() {
    assert_eq!(parse_number(b"9223372036854775.807"), Some(Number::Finite(i64::MAX as i128)));
    assert_eq!(parse_number(b"-9223372036854775.807"), Some(Number::Finite(-(i64::MAX as i128))));
    assert_eq!(parse_number(b"9223372036854775.8074"), Some(Number::Finite(i64::MAX as i128)));
    assert_eq!(parse_number(b"9223372036854775.8075"), Some(Number::PlusInfinity));
    assert_eq!(parse_number(b"9223372036854775.808"), Some(Number::PlusInfinity));
    assert_eq!(parse_number(b"-9223372036854775.808"), Some(Number::MinusInfinity));
    assert_eq!(parse_number(b"9223372036854776"), Some(Number::PlusInfinity));
    assert_eq!(parse_number(b"+99999999999999999999999999999999999999999999.5"), Some(Number::PlusInfinity));
    assert_eq!(parse_number(b"-99999999999999999999999999999999999999999999"), Some(Number::MinusInfinity));
    assert_eq!(parse_number(b"99999999999999999999999999999999999999999999x"), None);
    assert_eq!(parse_number(b"9999999999999999999999.9.9"), None);
}

#[test]
fn render_number_writes_numbers_and_words() {
    let shown = |n: Number| String::from_utf8(render_number(n)).unwrap();
    assert_eq!(shown(Number::Finite(10500)), "10.5");
    assert_eq!(shown(Number::Finite(-1)), "-0.001");
    assert_eq!(shown(Number::PlusInfinity), "inf");
    assert_eq!(shown(Number::MinusInfinity), "-inf");
    assert_eq!(shown(Number::NotANumber), "NaN");
    assert_eq!(shown(Number::Finite(i128::MAX)), "170141183460469231731687303715884105.727");
    assert_eq!(shown(Number::Finite(i128::MIN)), "-170141183460469231731687303715884105.728");
}

#[test]
fn rendered_values_read_back() {
    for n in [
        Number::Finite(0),
        Number::Finite(-1),
        Number::Finite(i64::MAX as i128),
        Number::Finite(-(i64::MAX as i128)),
        Number::PlusInfinity,
        Number::MinusInfinity,
        Number::NotANumber,
    ] {
        assert_eq!(parse_number(&render_number(n)), Some(n));
    }
}

#[test]
fn number_lesser_and_greater() {
    let (a, b) = (Number::Finite(-5), Number::Finite(7));
    assert_eq!(a.lesser(b), a);
    assert_eq!(b.lesser(a), a);
    assert_eq!(a.greater(b), b);
    assert_eq!(b.greater(a), b);
    assert_eq!(Number::NotANumber.lesser(a), a);
    assert_eq!(a.lesser(Number::NotANumber), a);
    assert_eq!(Number::NotANumber.greater(a), a);
    assert_eq!(a.greater(Number::NotANumber), a);
    assert_eq!(Number::NotANumber.lesser(Number::NotANumber), Number::NotANumber);
    assert_eq!(Number::MinusInfinity.lesser(a), Number::MinusInfinity);
    assert_eq!(a.lesser(Number::PlusInfinity), a);
    assert_eq!(Number::PlusInfinity.lesser(Number::MinusInfinity), Number::MinusInfinity);
    assert_eq!(Number::MinusInfinity.greater(a), a);
    assert_eq!(a.greater(Number::PlusInfinity), Number::PlusInfinity);
    assert_eq!(Number::MinusInfinity.greater(Number::PlusInfinity), Number::PlusInfinity);
}

#[test]
fn number_plus() {
    assert_eq!(Number::Finite(2).plus(Number::Finite(-5)), Number::Finite(-3));
    assert_eq!(Number::Finite(2).plus(Number::NotANumber), Number::NotANumber);
    assert_eq!(Number::NotANumber.plus(Number::PlusInfinity), Number::NotANumber);
    assert_eq!(Number::Finite(2).plus(Number::PlusInfinity), Number::PlusInfinity);
    assert_eq!(Number::MinusInfinity.plus(Number::Finite(2)), Number::MinusInfinity);
    assert_eq!(Number::PlusInfinity.plus(Number::PlusInfinity), Number::PlusInfinity);
    assert_eq!(Number::MinusInfinity.plus(Number::MinusInfinity), Number::MinusInfinity);
    assert_eq!(Number::PlusInfinity.plus(Number::MinusInfinity), Number::NotANumber);
    assert_eq!(Number::MinusInfinity.plus(Number::PlusInfinity), Number::NotANumber);
}

#[test]
fn number_divide_rounds_to_the_nearest() {
    assert_eq!(Number::Finite(1).divide(2), Number::Finite(1));
    assert_eq!(Number::Finite(-1).divide(2), Number::Finite(-1));
    assert_eq!(Number::Finite(1).divide(3), Number::Finite(0));
    assert_eq!(Number::Finite(2).divide(3), Number::Finite(1));
    assert_eq!(Number::Finite(-4000).divide(3), Number::Finite(-1333));
    assert_eq!(Number::Finite(-5000).divide(3), Number::Finite(-1667));
    assert_eq!(Number::Finite(0).divide(7), Number::Finite(0));
    assert_eq!(Number::Finite(i128::MAX - 1).divide(1), Number::Finite(i128::MAX - 1));
    assert_eq!(Number::Finite(-(i128::MAX - 1)).divide(u64::MAX), Number::Finite(-9223372036854775808));
    assert_eq!(Number::PlusInfinity.divide(3), Number::PlusInfinity);
    assert_eq!(Number::MinusInfinity.divide(3), Number::MinusInfinity);
    assert_eq!(Number::NotANumber.divide(3), Number::NotANumber);
}

fn stats(min: i128, sum: i128, max: i128, count: u64) -> StationStats {
    StationStats { min: Number::Finite(min), sum: Number::Finite(sum), max: Number::Finite(max), count }
}

#[test]
fn stats_of_one_reading() {
    let s = StationStats::single(Number::Finite(-42));
    assert_eq!(s, stats(-42, -42, -42, 1));
    assert_eq!(s.mean(), Number::Finite(-42));
}

#[test]
fn stats_observe_and_combine() {
    let s = StationStats::single(Number::Finite(50)).observe(Number::Finite(-30)).observe(Number::Finite(10));
    assert_eq!(s, stats(-30, 30, 50, 3));
    let t = StationStats::single(Number::Finite(70)).observe(Number::Finite(-80));
    assert_eq!(s.combine(&t), stats(-80, 20, 70, 5));
    assert_eq!(s.combine(&t), t.combine(&s));
    assert_eq!(s.combine(&t).mean(), Number::Finite(4));
}

#[test]
fn stats_with_special_readings() {
    let s = StationStats::single(Number::NotANumber).observe(Number::Finite(5));
    assert_eq!(
        s,
        StationStats { min: Number::Finite(5), sum: Number::NotANumber, max: Number::Finite(5), count: 2 }
    );
    let t = StationStats::single(Number::Finite(1)).observe(Number::PlusInfinity);
    assert_eq!(
        t,
        StationStats { min: Number::Finite(1), sum: Number::PlusInfinity, max: Number::PlusInfinity, count: 2 }
    );
    assert_eq!(t.mean(), Number::PlusInfinity);
    assert_eq!(s.combine(&t), t.combine(&s));
    assert_eq!(s.combine(&t).sum, Number::NotANumber);
    assert_eq!(s.combine(&t).min, Number::Finite(1));
    assert_eq!(s.combine(&t).max, Number::PlusInfinity);
}

#[test]
fn stats_mean_rounds_to_the_nearest() {
    assert_eq!(stats(0, 1, 1, 2).mean(), Number::Finite(1));
    assert_eq!(stats(-1, -1, 0, 2).mean(), Number::Finite(-1));
    assert_eq!(stats(-3, -6, -1, 3).mean(), Number::Finite(-2));
    assert_eq!(stats(-3, -7, -1, 3).mean(), Number::Finite(-2));
    assert_eq!(stats(-3, -8, -2, 3).mean(), Number::Finite(-3));
    let top = i64::MAX as i128;
    assert_eq!(stats(top, 3 * top, top, 3).mean(), Number::Finite(top));
    assert_eq!(stats(-top, -3 * top, -top, 3).mean(), Number::Finite(-top));
}

#[test]
fn stats_keep_exact_sums_of_extreme_readings() {
    let top = i64::MAX as i128;
    let s = StationStats::single(Number::Finite(top)).observe(Number::Finite(top)).observe(Number::Finite(-top));
    assert_eq!(s.sum, Number::Finite(top));
    assert_eq!(s.count, 3);
}

#[test]
fn state_keeps_its_keys_in_order() {
    let mut state = AggregationState::new();
    assert_eq!(state.len(), 0);
    assert_eq!(state.get(b"m"), None);
    for key in [&b"m"[..], b"c", b"x", b"a", b"mm", b"c", b"", b"x"] {
        state.fold(key, Number::Finite(10));
    }
    assert_eq!(state.len(), 6);
    let keys: Vec<&[u8]> = (0..state.len()).map(|i| state.key_at(i)).collect();
    assert_eq!(keys, vec![&b""[..], b"a", b"c", b"m", b"mm", b"x"]);
    assert_eq!(state.stats_at(2).count, 2);
    assert_eq!(state.stats_at(3).count, 1);
    assert_eq!(state.get(b"x").unwrap().sum, Number::Finite(20));
    assert_eq!(state.get(b"b"), None);
}

#[test]
fn absorb_combines_or_enters() {
    let mut state = AggregationState::new();
    state.absorb(b"k", stats(-5, 5, 10, 2));
    assert_eq!(state.get(b"k"), Some(stats(-5, 5, 10, 2)));
    state.absorb(b"k", stats(0, 30, 20, 3));
    assert_eq!(state.get(b"k"), Some(stats(-5, 35, 20, 5)));
}
