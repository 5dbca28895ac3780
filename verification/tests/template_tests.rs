use simweb::{interpolate, Selectable};
use simweb::template::parse_usize;

#[test]
fn interpolate_by_index() {
    let args: Vec<String> = vec!["zero".to_string(), "one".to_string()];
    assert_eq!(
        interpolate(&"${0} and ${1}".to_string(), &args),
        "zero and one"
    );
}

#[test]
fn interpolate_by_name() {
    let args: Vec<(String, String)> = vec![
        ("user".to_string(), "ada".to_string()),
        ("city".to_string(), "london".to_string()),
    ];
    assert_eq!(
        interpolate(&"hello ${user} of ${city}".to_string(), &args),
        "hello ada of london"
    );
}

#[test]
fn missing_value_keeps_placeholder() {
    let args: Vec<String> = vec!["only".to_string()];
    assert_eq!(interpolate(&"${7}".to_string(), &args), "${7}");
    let named: Vec<(String, String)> = Vec::new();
    assert_eq!(interpolate(&"${nope}".to_string(), &named), "${nope}");
}

#[test]
fn dollar_and_braces_pass_through() {
    let args: Vec<String> = vec!["v".to_string()];
    assert_eq!(interpolate(&"cost $5 {x} }".to_string(), &args), "cost $5 {x} }");
    assert_eq!(interpolate(&"$${0}".to_string(), &args), "$v");
    assert_eq!(interpolate(&"$}".to_string(), &args), "$}");
}

#[test]
fn unterminated_placeholder_is_dropped() {
    let args: Vec<String> = vec!["v".to_string()];
    assert_eq!(interpolate(&"before ${open".to_string(), &args), "before ");
    assert_eq!(interpolate(&"tail $".to_string(), &args), "tail ");
}

#[test]
fn numeric_name_on_pair_map_looks_up_by_name() {
    let args: Vec<(String, String)> = vec![("0".to_string(), "zeroth".to_string())];
    assert_eq!(interpolate(&"${0}".to_string(), &args), "zeroth");
}

#[test]
fn selectable_lookups() {
    let v: Vec<String> = vec!["a".to_string()];
    assert_eq!(v.get_by_id(&0), "a");
    assert_eq!(v.get_by_id(&3), "${3}");
    assert_eq!(v.get_by_name(&"0".to_string()), "a");
    assert_eq!(v.get_by_name(&"007".to_string()), "${7}");
    assert_eq!(v.get_by_name(&"x".to_string()), "${x}");
}

#[test]
fn parse_usize_grammar() {
    assert_eq!(parse_usize(&"0".to_string()), Some(0));
    assert_eq!(parse_usize(&"42".to_string()), Some(42));
    assert_eq!(parse_usize(&"+7".to_string()), Some(7));
    assert_eq!(parse_usize(&"".to_string()), None);
    assert_eq!(parse_usize(&"+".to_string()), None);
    assert_eq!(parse_usize(&"4x".to_string()), None);
    assert_eq!(parse_usize(&"-3".to_string()), None);
    assert_eq!(parse_usize(&"99999999999999999999999999".to_string()), None);
    assert_eq!(
        parse_usize(&usize::MAX.to_string()),
        Some(usize::MAX)
    );
}
