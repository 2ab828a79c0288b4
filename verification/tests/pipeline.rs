use rifgen::extract::{
    collapse_generic, normalize_signature, replace_dyn, simplify_type, trim_str, MethodDecl,
    ParamDecl, RetSegment, SourceItem, VariantDecl,
};
use rifgen::generator_lib::{ConfigError, ItemsHolder};
use rifgen::{Generator, Language, TypeCases};

#[test]
fn it_works() {
    let generator = Generator::new(TypeCases::Default, Language::Cpp, "src".to_string());
    let out = generator.generate_interface(Vec::new());
    assert!(out.is_ok());
}

#[test]
fn lib_it_works() {
    let holder = ItemsHolder::new(4);
    let out = holder.generate_interface(Language::Cpp, TypeCases::Default);
    assert_eq!(out, "//Automatically generated by rifgen\nuse crate::*;\n");
}

fn marked_method(name: &str, sig_tokens: Vec<&str>, params: Vec<ParamDecl>) -> MethodDecl {
    MethodDecl {
        name: name.to_string(),
        is_marked: true,
        is_constructor: false,
        docs: Vec::new(),
        sig_tokens: sig_tokens.into_iter().map(|s| s.to_string()).collect(),
        params,
        ret_segments: Vec::new(),
    }
}

#[test]
fn ordering_emits_referenced_type_first() {
    // type A has one operation parameterized on B, B has none, E is an enum:
    // the blocks come out as E, B, A.
    let items = vec![
        SourceItem::ImplBlock {
            self_name: Some("A".to_string()),
            methods: vec![marked_method(
                "use_b",
                vec!["fn", "use_b", "(b : B)"],
                vec![ParamDecl::Typed("B".to_string())],
            )],
        },
        SourceItem::ImplBlock {
            self_name: Some("B".to_string()),
            methods: vec![marked_method("plain", vec!["fn", "plain", "()"], vec![])],
        },
        SourceItem::EnumDecl {
            name: "E".to_string(),
            is_marked: true,
            docs: Vec::new(),
            variants: vec![VariantDecl { name: "One".to_string(), docs: Vec::new() }],
        },
    ];
    let generator = Generator::new(TypeCases::Default, Language::Java, "src".to_string());
    let out = generator.generate_interface(items).unwrap();
    let pos_e = out.find("enum E").unwrap();
    let pos_b = out.find("class B").unwrap();
    let pos_a = out.find("class A").unwrap();
    assert!(pos_e < pos_b);
    assert!(pos_b < pos_a);
    assert!(out.starts_with("//Automatically generated by rifgen\nuse crate::*;\nuse jni_sys::*;\n"));
}

#[test]
fn self_referencing_constructor_makes_no_loop() {
    // a constructor returning its own enclosing type must not create a
    // self-dependency: the run still terminates and emits the block once
    let items = vec![SourceItem::ImplBlock {
        self_name: Some("Kofi".to_string()),
        methods: vec![MethodDecl {
            name: "new".to_string(),
            is_marked: true,
            is_constructor: true,
            docs: Vec::new(),
            sig_tokens: vec!["fn".to_string(), "new".to_string(), "() -> Kofi".to_string()],
            params: Vec::new(),
            ret_segments: vec![RetSegment { ident: "Kofi".to_string(), args: Vec::new() }],
        }],
    }];
    let generator = Generator::new(TypeCases::Default, Language::Cpp, "src".to_string());
    let out = generator.generate_interface(items).unwrap();
    assert_eq!(out.matches("class Kofi").count(), 1);
    assert!(out.contains("constructor Kofi::new() -> Kofi;"));
}

#[test]
fn duplicate_declaration_is_fatal_and_names_the_type() {
    let enum_foo = |docs: Vec<String>| SourceItem::EnumDecl {
        name: "Foo".to_string(),
        is_marked: true,
        docs,
        variants: Vec::new(),
    };
    let generator = Generator::new(TypeCases::Default, Language::Cpp, "src".to_string());
    let err = generator
        .generate_interface(vec![enum_foo(Vec::new()), enum_foo(Vec::new())])
        .unwrap_err();
    match &err {
        ConfigError::DuplicateType(name) => assert_eq!(name, "Foo"),
        _ => panic!("expected a duplicate-type error"),
    }
    assert_eq!(err.message(), "Multiple definitions of Foo");
}

#[test]
fn free_standing_operation_is_fatal() {
    let generator = Generator::new(TypeCases::Default, Language::Cpp, "src".to_string());
    let err = generator
        .generate_interface(vec![SourceItem::FreeFn {
            name: "loose".to_string(),
            is_marked: true,
        }])
        .unwrap_err();
    match &err {
        ConfigError::FreeStandingOperation(name) => assert_eq!(name, "loose"),
        _ => panic!("expected a free-standing-operation error"),
    }
    assert_eq!(
        err.message(),
        "interface functions should be declared in impl blocks.\nName of function loose"
    );
}

#[test]
fn operation_against_an_enum_is_fatal() {
    let items = vec![
        SourceItem::EnumDecl {
            name: "Shape".to_string(),
            is_marked: true,
            docs: Vec::new(),
            variants: Vec::new(),
        },
        SourceItem::ImplBlock {
            self_name: Some("Shape".to_string()),
            methods: vec![marked_method("area", vec!["fn", "area", "()"], vec![])],
        },
    ];
    let generator = Generator::new(TypeCases::Default, Language::Cpp, "src".to_string());
    let err = generator.generate_interface(items).unwrap_err();
    match &err {
        ConfigError::ShapeConflict(name) => assert_eq!(name, "Shape"),
        _ => panic!("expected a shape-conflict error"),
    }
    assert_eq!(err.message(), "Expected Shape to be a struct");
}

#[test]
fn declaration_after_use_enriches_the_placeholder() {
    // the impl block of a struct may be scanned before the declaration;
    // the declaration's doc lines still end up in the block
    let items = vec![
        SourceItem::ImplBlock {
            self_name: Some("Late".to_string()),
            methods: vec![marked_method("go", vec!["fn", "go", "()"], vec![])],
        },
        SourceItem::StructDecl {
            name: "Late".to_string(),
            is_doc_marked: true,
            docs: vec!["///Declared after its operations".to_string()],
        },
    ];
    let generator = Generator::new(TypeCases::Default, Language::Cpp, "src".to_string());
    let out = generator.generate_interface(items).unwrap();
    assert!(out.contains("///Declared after its operations\n\tclass Late {"));
}

#[test]
fn two_runs_over_unchanged_input_are_byte_identical() {
    let build_items = || {
        vec![
            SourceItem::ImplBlock {
                self_name: Some("A".to_string()),
                methods: vec![marked_method(
                    "use_b",
                    vec!["fn", "use_b", "(b : B)"],
                    vec![ParamDecl::Typed("B".to_string())],
                )],
            },
            SourceItem::ImplBlock {
                self_name: Some("B".to_string()),
                methods: vec![marked_method("plain", vec!["fn", "plain", "()"], vec![])],
            },
        ]
    };
    let first = Generator::new(TypeCases::SnakeCase, Language::Java, "src".to_string())
        .generate_interface(build_items())
        .unwrap();
    let second = Generator::new(TypeCases::SnakeCase, Language::Java, "src".to_string())
        .generate_interface(build_items())
        .unwrap();
    assert_eq!(first, second);
}

#[test]
fn signature_normalization_strips_qualifiers_and_keeps_lifetimes() {
    let toks = |v: Vec<&str>| v.into_iter().map(|s| s.to_string()).collect::<Vec<String>>();
    assert_eq!(
        normalize_signature(&toks(vec!["unsafe", "fn", "new", "(kkkk : i64)", "->", "Kofi"])),
        "new(kkkk : i64)->Kofi"
    );
    assert_eq!(
        normalize_signature(&toks(vec!["fn", "f", "(s : &", "'", "a", "str)"])),
        "f(s : &'a str)"
    );
    assert_eq!(normalize_signature(&toks(vec!["no", "keyword"])), "");
}

#[test]
fn generic_arguments_collapse_to_the_inner_name() {
    assert_eq!(collapse_generic("Box < Kofi >"), "Kofi");
    assert_eq!(collapse_generic("Box < Box < i64 > >"), "i64");
    assert_eq!(collapse_generic("  OTH  "), "OTH");
    assert_eq!(replace_dyn(" dyn Handler"), "Handler");
    assert_eq!(simplify_type("Box < dyn Handler >"), "Handler");
    assert_eq!(trim_str("  spaced\t"), "spaced");
}

#[test]
fn camel_case_adds_alias_clause() {
    let items = vec![SourceItem::ImplBlock {
        self_name: Some("Foo".to_string()),
        methods: vec![marked_method("get_value", vec!["fn", "get_value", "(&self)"], vec![])],
    }];
    let generator = Generator::new(TypeCases::CamelCase, Language::Cpp, "src".to_string());
    let out = generator.generate_interface(items).unwrap();
    assert!(out.contains("fn Foo::get_value(&self); alias getValue;"));
}

#[test]
fn unmarked_and_foreign_declarations_are_skipped() {
    let items = vec![
        SourceItem::Other,
        SourceItem::FreeFn { name: "plain".to_string(), is_marked: false },
        SourceItem::ImplBlock { self_name: None, methods: Vec::new() },
        SourceItem::StructDecl {
            name: "Quiet".to_string(),
            is_doc_marked: false,
            docs: Vec::new(),
        },
        SourceItem::EnumDecl {
            name: "Quiet".to_string(),
            is_marked: false,
            docs: Vec::new(),
            variants: Vec::new(),
        },
        SourceItem::TraitDecl {
            name: "Quiet".to_string(),
            is_marked: false,
            docs: Vec::new(),
            methods: Vec::new(),
        },
    ];
    let generator = Generator::new(TypeCases::Default, Language::Cpp, "src".to_string());
    let out = generator.generate_interface(items).unwrap();
    assert_eq!(out, "//Automatically generated by rifgen\nuse crate::*;\n");
}

#[test]
fn struct_declared_twice_with_marker_is_fatal() {
    let decl = || SourceItem::StructDecl {
        name: "Foo".to_string(),
        is_doc_marked: true,
        docs: vec!["///doc".to_string()],
    };
    let generator = Generator::new(TypeCases::Default, Language::Cpp, "src".to_string());
    let err = generator.generate_interface(vec![decl(), decl()]).unwrap_err();
    match &err {
        ConfigError::DuplicateType(name) => assert_eq!(name, "Foo"),
        _ => panic!("expected a duplicate-type error"),
    }
}
