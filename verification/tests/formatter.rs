use rifgen::enums::{Delimiters, NewLineState};
use rifgen::text_formatter::StringFormatter;

#[test]
fn testing_various_states() {
    let mut format = StringFormatter::new(String::new(), 0);
    format.add_text_and_then_line(vec!["fn ", "main", "{"], NewLineState::ShiftRight);
    format.add_text_and_then_line(vec!["let", "x", "= 15 {"], NewLineState::ShiftRight);
    format.add_text_and_then_line(vec!["32"], NewLineState::Current);
    format.add_text_and_then_line(vec!["i get", " it"], NewLineState::Current);
    format.add_text_and_then_line(vec!["let", "x", "= 15 {"], NewLineState::ShiftRight);
    format.add_text_and_then_line(vec!["let", "y", "= 15"], NewLineState::ShiftLeft);
    println!("{}", format.string_container);
}

#[test]
fn testing_delimiters() {
    let mut format = StringFormatter::new(String::new(), 0);
    format.add_text_delimiter_then_line(
        vec!["fn ", "main"],
        Delimiters::Bracket,
        NewLineState::ShiftRight,
    );
    format.add_text_and_colon(vec!["let", "x", "= 15"]);
    format.add_text_and_colon(vec!["let", "y", "= 34"]);
    format.add_text_delimiter_then_line(
        vec!["foreign_enum!"],
        Delimiters::Parenthesis,
        NewLineState::ShiftRight,
    );
    format.add_text_and_then_line(vec!["just a doc"], NewLineState::Current);
    format.add_text_delimiter_then_line(
        vec!["enum Trial"],
        Delimiters::Bracket,
        NewLineState::ShiftRight,
    );
    format.add_text_and_comma(vec!["Trial::Here"]);
    println!("{} {}", format.string_container, format.indent_depth());
    format.close_all_delimiters();
    println!("{}", format.string_container);
}

#[test]
fn delimiter_balance_restores_depth() {
    let mut format = StringFormatter::new(String::new(), 0);
    format.add_text_delimiter_then_line(
        vec!["foreign_class!"],
        Delimiters::Parenthesis,
        NewLineState::ShiftRight,
    );
    format.add_text_delimiter_then_line(
        vec!["class Foo"],
        Delimiters::Bracket,
        NewLineState::ShiftRight,
    );
    format.add_text_and_colon(vec!["self_type Foo"]);
    assert_eq!(format.indent_depth(), 2);
    format.close_all_delimiters();
    assert_eq!(format.indent_depth(), 0);
    assert_eq!(
        format.string_container,
        "foreign_class!(\n\tclass Foo {\n\t\tself_type Foo;\n\t}\n);\n"
    );
}
