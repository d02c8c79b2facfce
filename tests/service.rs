use rookrustpad::app_configuration::AppConfiguration;
use rookrustpad::day11::DayError;
use rookrustpad::service::{
    configure_service, parse_input_file_name, parse_year_directory, AocFunction, AocProblem,
    AocService,
};

#[test]
fn new_service_is_empty() {
    let s = AocService::new(String::from("inputs"));
    assert_eq!(s.input_directory, "inputs");
    assert!(s.list_problems().is_empty());
    assert_eq!(s.find_answer(2022, 11, 1), None);
}

#[test]
fn default_service_has_both_parts() {
    let s = AocService::create_default(String::from("inputs"));
    assert_eq!(s.find_answer(2022, 11, 1), Some(AocFunction::MonkeyBusiness));
    assert_eq!(s.find_answer(2022, 11, 2), Some(AocFunction::ManagedMonkeyBusiness));
    assert_eq!(s.find_answer(2022, 11, 3), None);
    assert_eq!(
        s.list_problems(),
        vec![
            AocProblem { year: 2022, day: 11, part: 1 },
            AocProblem { year: 2022, day: 11, part: 2 }
        ]
    );
}

#[test]
fn registering_again_replaces() {
    let mut s = AocService::new(String::from("x"));
    s.register_answer(2022, 11, 1, AocFunction::MonkeyBusiness);
    s.register_answer(2021, 1, 1, AocFunction::MonkeyBusiness);
    s.register_answer(2022, 11, 1, AocFunction::ManagedMonkeyBusiness);
    assert_eq!(s.list_problems().len(), 2);
    assert_eq!(s.find_answer(2022, 11, 1), Some(AocFunction::ManagedMonkeyBusiness));
    configure_service(&mut s);
    assert_eq!(s.list_problems().len(), 3);
    assert_eq!(s.find_answer(2022, 11, 1), Some(AocFunction::MonkeyBusiness));
}

#[test]
fn solvers_run_on_text() {
    let text = b"Monkey 0:\n Starting items: 1\n";
    assert!(matches!(AocFunction::MonkeyBusiness.run(text), Err(DayError::Parse(_))));
    assert!(matches!(AocFunction::ManagedMonkeyBusiness.run(text), Err(DayError::Parse(_))));
}

#[test]
fn default_configuration() {
    let c = AppConfiguration::create_default();
    assert_eq!(c.aoc_service.input_directory, "www/aoc_input");
    assert_eq!(c.aoc_service.find_answer(2022, 11, 2), Some(AocFunction::ManagedMonkeyBusiness));
}

#[test]
fn input_file_names() {
    assert_eq!(parse_input_file_name(b"day_11_1.txt"), Some((11, 1)));
    assert_eq!(parse_input_file_name(b"day_11_2_example.txt"), Some((11, 2)));
    assert_eq!(parse_input_file_name(b"day_3_1_a_b.txt"), Some((3, 1)));
    assert_eq!(parse_input_file_name(b"day_11_1.md"), None);
    assert_eq!(parse_input_file_name(b"day_11.txt"), None);
    assert_eq!(parse_input_file_name(b"day_x_1.txt"), None);
    assert_eq!(parse_input_file_name(b"day_1_2_.txt"), None);
    assert_eq!(parse_input_file_name(b"day_1_256.txt"), None);
    assert_eq!(parse_input_file_name(b"night_1_1.txt"), None);
    assert_eq!(parse_input_file_name(b"day_1_1Xtxt"), None);
}

#[test]
fn year_directories() {
    assert_eq!(parse_year_directory(b"2022"), Some(2022));
    assert_eq!(parse_year_directory(b"0999"), Some(999));
    assert_eq!(parse_year_directory(b"202"), None);
    assert_eq!(parse_year_directory(b"20222"), None);
    assert_eq!(parse_year_directory(b"20a2"), None);
}
