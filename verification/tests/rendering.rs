use rifgen::casing::{alias_suffix, cased_name};
use rifgen::enums::{TypeHolder, Types};
use rifgen::types_structs::{ItemInfo, MethodInfo, TypeRecord};
use rifgen::TypeCases;

fn method(sig: &str, name: &str, ctor: bool, params: Vec<&str>, rets: Vec<&str>) -> ItemInfo {
    ItemInfo::new_method(
        sig.to_string(),
        Vec::new(),
        name.to_string(),
        ctor,
        params.into_iter().map(|s| s.to_string()).collect(),
        rets.into_iter().map(|s| s.to_string()).collect(),
    )
}

#[test]
fn struct_without_constructor_has_no_self_type_line() {
    let items = vec![method("trial(s : String)->i8", "trial", false, vec!["String"], vec!["i8"])];
    let rec = TypeRecord::new(
        "MyClass".to_string(),
        Types::Struct,
        vec!["///My class test".to_string()],
        items,
    );
    let out = rec.generate_interface(TypeCases::Default);
    assert_eq!(
        out,
        "foreign_class!(\n\t///My class test\n\tclass MyClass {\n\t\tfn MyClass::trial(s : String)->i8;\n\t}\n);\n"
    );
    assert!(!out.contains("self_type"));
    assert!(!out.contains("constructor"));
}

#[test]
fn struct_with_constructor_emits_self_type_then_constructor() {
    let items = vec![
        method("new(kkkk: i64, k: Trial) -> Kofi", "new", true, vec!["i64", "Trial"], vec!["Kofi"]),
        method("trial(s : String)->i8", "trial", false, vec!["String"], vec![]),
    ];
    let rec = TypeRecord::new("Kofi".to_string(), Types::Struct, Vec::new(), items);
    let out = rec.generate_interface(TypeCases::Default);
    assert_eq!(
        out,
        "foreign_class!(\n\tclass Kofi {\n\t\tself_type Kofi;\n\t\tconstructor Kofi::new(kkkk: i64, k: Trial) -> Kofi;\n\t\tfn Kofi::trial(s : String)->i8;\n\t}\n);\n"
    );
}

#[test]
fn snake_case_adds_alias_clause() {
    let items = vec![method("getValue(&self) -> i32", "getValue", false, vec![], vec!["i32"])];
    let rec = TypeRecord::new("Foo".to_string(), Types::Struct, Vec::new(), items);
    let out = rec.generate_interface(TypeCases::SnakeCase);
    assert!(out.contains("fn Foo::getValue(&self) -> i32; alias get_value;"));
}

#[test]
fn identity_case_omits_alias_clause() {
    let items = vec![method("getValue(&self) -> i32", "getValue", false, vec![], vec!["i32"])];
    let rec = TypeRecord::new("Foo".to_string(), Types::Struct, Vec::new(), items);
    let out = rec.generate_interface(TypeCases::Default);
    assert!(!out.contains("alias"));
    assert_eq!(alias_suffix(TypeCases::Default, "getValue"), "");
}

#[test]
fn trait_renders_callback_block() {
    let items = vec![method("on_click(&self)", "on_click", false, vec![], vec![])];
    let rec = TypeRecord::new(
        "MyCallback".to_string(),
        Types::Trait,
        vec!["///MyCallback documentation".to_string()],
        items,
    );
    let out = rec.generate_interface(TypeCases::CamelCase);
    assert_eq!(
        out,
        "foreign_callback!(\n\t///MyCallback documentation\n\tcallback MyCallback {\n\t\tself_type MyCallback;\n\t\tonClick = MyCallback::on_click(&self);\n\t}\n);\n"
    );
}

#[test]
fn enum_renders_comma_terminated_variants() {
    let items = vec![
        ItemInfo::new_enum("One".to_string(), Vec::new()),
        ItemInfo::new_enum("Two".to_string(), Vec::new()),
    ];
    let rec = TypeRecord::new("MyEnum".to_string(), Types::Enum, Vec::new(), items);
    let out = rec.generate_interface(TypeCases::Default);
    assert_eq!(
        out,
        "foreign_enum!(\n\tenum MyEnum {\n\t\tOne = MyEnum::One,\n\t\tTwo = MyEnum::Two,\n\t}\n);\n"
    );
}

#[test]
fn case_transforms_change_the_name() {
    assert_eq!(cased_name(TypeCases::SnakeCase, "getValue"), "get_value");
    assert_eq!(cased_name(TypeCases::CamelCase, "get_value"), "getValue");
    assert_eq!(cased_name(TypeCases::Default, "getValue"), "getValue");
    assert_eq!(alias_suffix(TypeCases::SnakeCase, "getValue"), "; alias get_value");
}

#[test]
fn holder_lists_referenced_types() {
    let items = vec![method("f(a: B) -> C", "f", false, vec!["B"], vec!["C"])];
    let rec = TypeRecord::new("A".to_string(), Types::Struct, Vec::new(), items);
    let holder = TypeHolder::Struct(rec);
    assert_eq!(holder.name(), "A");
    assert_eq!(holder.types(), vec!["B".to_string(), "C".to_string()]);
    let mi = MethodInfo::new(
        "f".to_string(),
        vec!["B".to_string()],
        vec!["C".to_string()],
    );
    assert_eq!(mi.all_types(), vec!["B".to_string(), "C".to_string()]);
}
