use nodescheduler::framework::plugins::quantity::{
    add, as_integer, canonical, compare_to, install, is_integer, parse, parse_trimmed, quantity, sign, sub, Operand,
    Scalar,
};

fn eval(expr: &str) -> cel::Value {
    let mut ctx = cel::Context::default();
    install(&mut ctx);
    cel::Program::compile(expr).unwrap().execute(&ctx).unwrap()
}

#[test]
fn quantities_are_exact_beyond_float64s_precision() {
    assert_eq!(eval(r#"quantity("9007199254740993").compareTo(quantity("9007199254740992"))"#), cel::Value::Int(1));
}

#[test]
fn equivalent_spellings_have_the_same_canonical_value() {
    assert_eq!(eval(r#"quantity("1G") == quantity("1000000000")"#), cel::Value::Bool(true));
    assert_eq!(eval(r#"quantity("200M").compareTo(quantity("0.2G"))"#), cel::Value::Int(0));
}

#[test]
fn binary_decimal_and_exponent_suffixes_are_exact() {
    assert_eq!(eval(r#"quantity("1Gi").asInteger()"#), cel::Value::Int(1_073_741_824));
    assert_eq!(eval(r#"quantity("1e3").asInteger()"#), cel::Value::Int(1000));
    assert_eq!(eval(r#"quantity("1m").isInteger()"#), cel::Value::Bool(false));
}

#[test]
fn exponent_magnitude_is_finite_and_handles_i32_min() {
    assert!(parse("1e4096").is_some());
    assert!(parse("1e4097").is_none());
    assert!(parse("1e-4097").is_none());
    assert!(parse("1e-2147483648").is_none());
}

#[test]
fn arithmetic_and_scalar_conversions_match_upstream() {
    assert_eq!(eval(r#"quantity("50k").add(20).sub(quantity("100k")).sub(-50000).asInteger()"#), cel::Value::Int(20));
}

#[test]
fn invalid_quantities_fail_closed() {
    assert_eq!(eval(r#"isQuantity("Three")"#), cel::Value::Bool(false));
    let mut ctx = cel::Context::default();
    install(&mut ctx);
    let program = cel::Program::compile(r#"quantity("Three")"#).unwrap();
    assert!(program.execute(&ctx).is_err());
}

#[test]
fn every_function_is_there() {
    assert_eq!(eval(r#"quantity("1.5").sign()"#), cel::Value::Int(1));
    assert_eq!(eval(r#"quantity("-1").sign()"#), cel::Value::Int(-1));
    assert_eq!(eval(r#"quantity("0").sign()"#), cel::Value::Int(0));
    assert_eq!(eval(r#"isQuantity("12Mi")"#), cel::Value::Bool(true));
    assert_eq!(eval(r#"quantity("2").isInteger()"#), cel::Value::Bool(true));
    assert_eq!(eval(r#"quantity("1.5").asApproximateFloat()"#), cel::Value::Float(1.5));
    assert_eq!(eval(r#"quantity("1k").isGreaterThan(quantity("999"))"#), cel::Value::Bool(true));
    assert_eq!(eval(r#"quantity("1k").isLessThan(quantity("999"))"#), cel::Value::Bool(false));
    assert_eq!(eval(r#"quantity("1k").compareTo(quantity("2k"))"#), cel::Value::Int(-1));
}

#[test]
fn canonical_texts_are_in_lowest_terms() {
    assert_eq!(canonical("0.5").as_deref(), Some("__notk8s_quantity:1/2"));
    assert_eq!(canonical(" 500m\n").as_deref(), Some("__notk8s_quantity:1/2"));
    assert_eq!(canonical("-0").as_deref(), Some("__notk8s_quantity:0/1"));
    assert_eq!(canonical("+2.50e-1").as_deref(), Some("__notk8s_quantity:1/4"));
    assert_eq!(canonical("1e3k").as_deref(), Some("__notk8s_quantity:1000000/1"));
    assert_eq!(canonical("1E").as_deref(), Some("__notk8s_quantity:1000000000000000000/1"));
    assert_eq!(canonical("3n").as_deref(), Some("__notk8s_quantity:3/1000000000"));
    assert_eq!(canonical("."), None);
    assert_eq!(canonical(""), None);
    assert_eq!(canonical("1.2.3"), None);
    assert_eq!(canonical("1ee3"), None);
    let quarter = parse_trimmed("250m").unwrap();
    assert_eq!((quarter.numer.as_str(), quarter.denom.as_str()), ("1", "4"));
    assert!(parse_trimmed(" 250m").is_none());
}

fn text(s: &str) -> Operand {
    Operand { scalar: Scalar::Text(s.to_string()), shown: format!("{s:?}") }
}

#[test]
fn texts_are_read_back_as_numbers() {
    let half = text(&canonical("0.5").unwrap());
    let third = text("__notk8s_quantity:2/-6");
    assert_eq!(add(&half, &half).unwrap(), "__notk8s_quantity:1/1");
    assert_eq!(sub(&half, &third).unwrap(), "__notk8s_quantity:5/6");
    assert_eq!(compare_to(&half, &third).unwrap(), 1);
    assert_eq!(sign(&third).unwrap(), -1);
    assert_eq!(as_integer(&half).unwrap_err(), "cannot convert value to integer");
    let one = text("__notk8s_quantity:1_000/+1_000");
    assert_eq!(as_integer(&one).unwrap(), 1);
    let big = text("__notk8s_quantity:9223372036854775808/1");
    assert!(!is_integer(&big).unwrap());
    assert_eq!(sign(&text("half")).unwrap_err(), "\"half\" is not a quantity");
    assert_eq!(sign(&text("__notk8s_quantity:1/0")).unwrap_err(), "\"__notk8s_quantity:1/0\" is not a quantity");
    let number = Operand { scalar: Scalar::UInt(7), shown: "7".to_string() };
    assert_eq!(as_integer(&number).unwrap(), 7);
    let other = Operand { scalar: Scalar::Other, shown: "null".to_string() };
    assert_eq!(add(&number, &other).unwrap_err(), "null is not a quantity");
    assert_eq!(quantity("Three").unwrap_err(), "invalid quantity \"Three\"");
}

#[test]
fn white_space_round_a_quantity_is_left_out() {
    for text in [" 12 ", "\t12\n", "\u{a0}12\u{3000}", "\u{2003}12\u{205f}", "\u{85}12\u{2028}"] {
        assert_eq!(canonical(text), canonical("12"), "{text:?}");
    }
    assert_eq!(canonical("\u{200b}12"), None);
}
