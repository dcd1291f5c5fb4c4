use curve_editor::{decode, encode, Vec2};

#[test]
pub fn encode_test() {
    let data = vec![
        Vec2::new(5430, 7432),
        Vec2::new(1000, 9900),
        Vec2::new(4500, 8800),
        Vec2::new(0, 500),
        Vec2::new(10000, 5345),
    ];

    assert_eq!(
        encode(data),
        String::from("0.0000:0.0500\n0.1000:0.9900\n0.4500:0.8800\n0.5430:0.7432\n1.0000:0.5345\n")
    );
}

#[test]
pub fn decode_test() {
    let data = vec![
        Vec2::new(0, 500),
        Vec2::new(1000, 9900),
        Vec2::new(4500, 8800),
        Vec2::new(5430, 7432),
        Vec2::new(10000, 5345),
    ];

    let decoded = decode(String::from(
        "0.0000:0.0500\n0.1000:0.9900\n0.4500:0.8800\n0.5430:0.7432\n1.0000:0.5345\n",
    ));
    assert!(decoded.is_ok());
    let decoded = decoded.unwrap();

    assert_eq!(decoded, data);
}

#[test]
pub fn decode_err_test() {
    let decoded = decode(String::from("0.0000:0.0500\n0.5:oups\n"));
    assert!(decoded.is_err());

    assert_eq!(
        decoded.unwrap_err(),
        "line 2: y is not float32: invalid float literal at 0.5:oups"
    );
}

#[test]
fn round_trip_keeps_points_sorted_by_x() {
    let data = vec![
        Vec2::new(7500, 1),
        Vec2::new(0, 10000),
        Vec2::new(2500, 0),
        Vec2::new(10000, 9999),
    ];
    let decoded = decode(encode(data)).unwrap();
    assert_eq!(
        decoded,
        vec![Vec2::new(0, 10000), Vec2::new(2500, 0), Vec2::new(7500, 1), Vec2::new(10000, 9999)]
    );
}

#[test]
fn encode_is_sorted_whatever_the_input_order() {
    let a = encode(vec![Vec2::new(3000, 1000), Vec2::new(1000, 2000), Vec2::new(2000, 3000)]);
    let b = encode(vec![Vec2::new(2000, 3000), Vec2::new(3000, 1000), Vec2::new(1000, 2000)]);
    assert_eq!(a, "0.1000:0.2000\n0.2000:0.3000\n0.3000:0.1000\n");
    assert_eq!(a, b);
}

#[test]
fn encode_empty_and_negative() {
    assert_eq!(encode(vec![]), "");
    assert_eq!(encode(vec![Vec2::new(-5, 12345)]), "-0.0005:1.2345\n");
}

#[test]
fn decode_accepts_short_and_signed_numbers() {
    let decoded = decode(String::from("0.5:1\r\n+.25:-0.0001\n7.:0.1234")).unwrap();
    assert_eq!(decoded, vec![Vec2::new(5000, 10000), Vec2::new(2500, -1), Vec2::new(70000, 1234)]);
    assert_eq!(decode(String::new()).unwrap(), vec![]);
}

#[test]
fn decode_reports_missing_delimiter() {
    assert_eq!(decode(String::from("0.1:0.2\n\n")).unwrap_err(), "line 2: unexpected data ");
    assert_eq!(decode(String::from("abc")).unwrap_err(), "line 1: unexpected data abc");
}

#[test]
fn decode_reports_bad_x() {
    assert_eq!(
        decode(String::from(":0.5")).unwrap_err(),
        "line 1: x is not float32: cannot parse float from empty string at :0.5"
    );
    assert_eq!(
        decode(String::from("1e:0.5")).unwrap_err(),
        "line 1: x is not float32: invalid float literal at 1e:0.5"
    );
    assert_eq!(
        decode(String::from("inf:0.5")).unwrap_err(),
        "line 1: x is not float32: invalid float literal at inf:0.5"
    );
    assert_eq!(
        decode(String::from("0.1:0.1\n1e13:0")).unwrap_err(),
        "line 2: x is not float32: invalid float literal at 1e13:0"
    );
}

#[test]
fn decode_reports_empty_y() {
    assert_eq!(
        decode(String::from("0.1:0.1\n0.2:0.2\n0.3:")).unwrap_err(),
        "line 3: y is not float32: cannot parse float from empty string at 0.3:"
    );
}

#[test]
fn encode_keeps_the_input_order_of_equal_x() {
    let a = encode(vec![Vec2::new(5000, 1000), Vec2::new(5000, 2000)]);
    let b = encode(vec![Vec2::new(5000, 2000), Vec2::new(5000, 1000)]);
    assert_eq!(a, "0.5000:0.1000\n0.5000:0.2000\n");
    assert_eq!(b, "0.5000:0.2000\n0.5000:0.1000\n");
}

#[test]
fn decode_reads_exponents_and_long_fractions() {
    let decoded = decode(String::from(
        "1e0:1\n0.50000:2.5e-1\n5E-5:4e-5\n-1.5e1:+0.12345\n0e99999999999999999999999999999:1E+0\n",
    ))
    .unwrap();
    assert_eq!(
        decoded,
        vec![
            Vec2::new(10000, 10000),
            Vec2::new(5000, 2500),
            Vec2::new(1, 0),
            Vec2::new(-150000, 1235),
            Vec2::new(0, 10000),
        ]
    );
}

#[test]
fn decode_keeps_a_carriage_return_without_newline() {
    assert_eq!(
        decode(String::from("0:0\r")).unwrap_err(),
        "line 1: y is not float32: invalid float literal at 0:0\r"
    );
    assert_eq!(decode(String::from("0:1\n\r")).unwrap_err(), "line 2: unexpected data \r");
    assert_eq!(decode(String::from("0:1\r\n0.5:0\r\n")).unwrap(), vec![Vec2::new(0, 10000), Vec2::new(5000, 0)]);
}
