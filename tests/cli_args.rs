use passgen::args::{extract_arg, extract_arg_present, find_arg, position_of, ArgValue};
use std::collections::HashMap;

fn strings(items: &[&str]) -> Vec<String> {
    items.iter().map(|s| String::from(*s)).collect()
}

#[test]
fn test_extract_arg() {
    let mut cases: HashMap<Vec<String>, Vec<&str>> = HashMap::new();
    cases.insert(
        vec![String::from("-l"), String::from("16"), String::from("c")],
        vec!["-l", "16"],
    );
    cases.insert(
        vec![
            String::from("-s"),
            String::from("hello-world"),
            String::from("c"),
        ],
        vec!["-l", ""],
    );
    cases.insert(
        vec![
            String::from("-s"),
            String::from("hello-world"),
            String::from("c"),
        ],
        vec!["-s", "hello-world"],
    );
    for case in cases.iter() {
        let input = case.0;
        let expected = (case.1)[1];
        let param = (case.1)[0];
        assert_eq!(extract_arg(param, input), expected);
    }
}

#[test]
fn test_extract_arg_present() {
    let mut cases: HashMap<Vec<String>, Vec<&str>> = HashMap::new();
    cases.insert(
        vec![String::from("-l"), String::from("16"), String::from("c")],
        vec!["-l", "true"],
    );
    cases.insert(
        vec![
            String::from("-s"),
            String::from("hello-world"),
            String::from("c"),
        ],
        vec!["-l", "false"],
    );
    cases.insert(
        vec![
            String::from("-s"),
            String::from("hello-world"),
            String::from("c"),
        ],
        vec!["-s", "true"],
    );
    for case in cases.iter() {
        let input = case.0;
        let expected = (case.1)[1];
        let param = (case.1)[0];

        let res = match extract_arg_present(param, input) {
            true => "true",
            false => "false",
        };
        assert_eq!(res, expected);
    }
}

#[test]
fn find_arg_reports_missing_value() {
    let args = strings(&["passt", "-s", "-l"]);
    assert_eq!(find_arg("-l", &args), ArgValue::MissingValue);
}

#[test]
fn find_arg_reports_absent() {
    let args = strings(&["passt", "-s"]);
    assert_eq!(find_arg("-chars", &args), ArgValue::Absent);
    assert_eq!(extract_arg("-chars", &args), "");
}

#[test]
fn find_arg_uses_first_occurrence() {
    let args = strings(&["passt", "-l", "8", "-l", "12"]);
    assert_eq!(find_arg("-l", &args), ArgValue::Value(String::from("8")));
    assert_eq!(extract_arg("-l", &args), "8");
    assert_eq!(position_of("-l", &args), Some(1));
}

#[test]
fn value_may_itself_look_like_a_flag() {
    let args = strings(&["passt", "-chars", "-s"]);
    assert_eq!(extract_arg("-chars", &args), "-s");
    assert!(extract_arg_present("-s", &args));
}

#[test]
fn empty_argument_list_holds_nothing() {
    let args: Vec<String> = Vec::new();
    assert!(!extract_arg_present("-s", &args));
    assert_eq!(position_of("-s", &args), None);
    assert_eq!(find_arg("-l", &args), ArgValue::Absent);
}
