use projecta::propgen::common_generators::{age_generator, email_generator};
use projecta::propgen::{
    generate_for_file, generate_for_project, CodeGenerator, Config, Constraint, CustomGenerator,
    FunctionSignature, GeneratorConfig, Parameter, Property, PropertyInference, PropertyType,
    ShrinkStep, ShrinkStrategy, Type,
};

// Milestone 1 Tests
#[test]
fn test_parse_simple_function() {
    let source = "fn add(a: i32, b: i32) -> i32";
    let sig = FunctionSignature::parse_function(source).unwrap();

    assert_eq!(sig.name, "add");
    assert_eq!(sig.parameters.len(), 2);
    assert_eq!(sig.parameters[0].name, "a");
    assert_eq!(sig.parameters[0].param_type, Type::Primitive("i32".to_string()));
    assert!(matches!(sig.return_type, Some(Type::Primitive(_))));
}

#[test]
fn test_parse_generic_function() {
    let source = "fn reverse<T>(vec: Vec<T>) -> Vec<T>";
    let sig = FunctionSignature::parse_function(source).unwrap();

    assert_eq!(sig.name, "reverse");
    assert_eq!(sig.generics, vec!["T"]);
    assert!(matches!(sig.parameters[0].param_type, Type::Vec(_)));
}

#[test]
fn test_parse_with_constraints() {
    let source = "fn max<T: Ord>(a: T, b: T) -> T";
    let sig = FunctionSignature::parse_function(source).unwrap();

    assert_eq!(sig.generics, vec!["T"]);
    let constraints = sig.infer_constraints();
    assert!(constraints.iter().any(|c| c.trait_bound.contains("Ord")));
}

#[test]
fn test_mutable_parameter_detection() {
    let source = "fn increment(x: &mut i32)";
    let sig = FunctionSignature::parse_function(source).unwrap();

    assert!(sig.parameters[0].is_mutable);
    assert!(sig.has_side_effects());
}

#[test]
fn test_complex_return_type() {
    let source = "fn parse(s: &str) -> Result<i32, String>";
    let sig = FunctionSignature::parse_function(source).unwrap();

    assert!(matches!(sig.return_type, Some(Type::Result(_, _))));
}

#[test]
fn test_tuple_parameters() {
    let source = "fn swap<T>(pair: (T, T)) -> (T, T)";
    let sig = FunctionSignature::parse_function(source).unwrap();

    assert!(matches!(sig.parameters[0].param_type, Type::Tuple(_)));
}

// Milestone 2 Tests
#[test]
fn test_infer_commutativity() {
    let source = "fn add(a: i32, b: i32) -> i32";
    let sig = FunctionSignature::parse_function(source).unwrap();
    let mut inference = PropertyInference::new(sig);

    let properties = inference.infer_properties();

    assert!(properties
        .iter()
        .any(|p| matches!(p.property_type, PropertyType::Commutativity)));
}

#[test]
fn test_infer_involution() {
    let source = "fn reverse<T>(vec: Vec<T>) -> Vec<T>";
    let sig = FunctionSignature::parse_function(source).unwrap();
    let mut inference = PropertyInference::new(sig);

    let properties = inference.infer_properties();

    assert!(properties
        .iter()
        .any(|p| matches!(p.property_type, PropertyType::Involution)));
}

#[test]
fn test_infer_identity() {
    let source = "fn multiply(a: i32, b: i32) -> i32";
    let sig = FunctionSignature::parse_function(source).unwrap();
    let mut inference = PropertyInference::new(sig);

    let properties = inference.infer_properties();

    assert!(properties
        .iter()
        .any(|p| matches!(p.property_type, PropertyType::Identity(_))));
}

#[test]
fn test_length_preservation() {
    let source = "fn shuffle<T>(vec: Vec<T>) -> Vec<T>";
    let sig = FunctionSignature::parse_function(source).unwrap();
    let mut inference = PropertyInference::new(sig);

    let properties = inference.infer_properties();

    assert!(properties
        .iter()
        .any(|p| matches!(p.property_type, PropertyType::LengthPreservation)));
}

#[test]
fn test_no_false_positives() {
    let source = "fn divide(a: i32, b: i32) -> i32";
    let sig = FunctionSignature::parse_function(source).unwrap();
    let mut inference = PropertyInference::new(sig);

    let _properties = inference.infer_properties();
}

#[test]
fn test_associativity_inference() {
    let source = "fn max(a: i32, b: i32) -> i32";
    let sig = FunctionSignature::parse_function(source).unwrap();
    let mut inference = PropertyInference::new(sig);

    let properties = inference.infer_properties();

    assert!(properties
        .iter()
        .any(|p| matches!(p.property_type, PropertyType::Associativity)));
}

// Milestone 3 Tests
#[test]
fn test_generate_commutativity_test() {
    let prop = Property {
        name: "test_add_commutative".to_string(),
        description: "Addition is commutative".to_string(),
        property_type: PropertyType::Commutativity,
        test_code: String::new(),
    };

    let generator = CodeGenerator::new(vec![prop], GeneratorConfig::default());
    let code = generator.generate_property_test(&generator.properties[0]);

    assert!(code.contains("prop_assert_eq!"));
    assert!(code.contains("(a, b)") && code.contains("(b, a)") || code.contains("swap"));
}

#[test]
fn test_generate_involution_test() {
    let prop = Property {
        name: "test_reverse_involution".to_string(),
        description: "Reversing twice returns original".to_string(),
        property_type: PropertyType::Involution,
        test_code: String::new(),
    };

    let generator = CodeGenerator::new(vec![prop], GeneratorConfig::default());
    let code = generator.generate_property_test(&generator.properties[0]);

    assert!(code.contains("func(func") || code.contains("f(f("));
}

#[test]
fn test_create_primitive_generator() {
    let generator = CodeGenerator::new(vec![], GeneratorConfig::default());

    let gen = generator.create_value_generator(&Type::Primitive("i32".to_string()));
    assert!(gen.contains("any::<i32>()") || gen.contains("i32"));
}

#[test]
fn test_create_vec_generator() {
    let generator = CodeGenerator::new(vec![], GeneratorConfig::default());

    let gen = generator.create_value_generator(&Type::Vec(Box::new(Type::Primitive(
        "i32".to_string(),
    ))));

    assert!(gen.contains("vec") || gen.contains("collection"));
}

#[test]
fn test_full_module_generation() {
    let props = vec![
        Property {
            name: "test_prop1".to_string(),
            description: "Test 1".to_string(),
            property_type: PropertyType::Commutativity,
            test_code: String::new(),
        },
        Property {
            name: "test_prop2".to_string(),
            description: "Test 2".to_string(),
            property_type: PropertyType::Involution,
            test_code: String::new(),
        },
    ];

    let generator = CodeGenerator::new(props, GeneratorConfig::default());
    let module = generator.generate_tests();

    assert!(module.contains("proptest!"));
    assert!(module.contains("use proptest"));
    assert!(module.contains("test_prop1"));
    assert!(module.contains("test_prop2"));
}

#[test]
fn test_compilable_output() {
    let prop = Property {
        name: "test_example".to_string(),
        description: "Example".to_string(),
        property_type: PropertyType::Commutativity,
        test_code: String::new(),
    };

    let generator = CodeGenerator::new(vec![prop], GeneratorConfig::default());
    let code = generator.generate_tests();

    assert!(code.contains("#[test]") || code.contains("proptest!"));
    assert!(code.contains("fn test_"));
}

// Milestone 4 Tests
#[test]
fn test_infer_age_constraints() {
    let param = Parameter {
        name: "age".to_string(),
        param_type: Type::Primitive("i32".to_string()),
        is_mutable: false,
    };

    let constraints = CustomGenerator::infer_constraints(&param);

    assert!(constraints.iter().any(|c| matches!(
        c,
        Constraint::Range { min: 0, max: 150 }
    ) || matches!(c, Constraint::Positive)));
}

#[test]
fn test_infer_email_pattern() {
    let param = Parameter {
        name: "email".to_string(),
        param_type: Type::Primitive("String".to_string()),
        is_mutable: false,
    };

    let constraints = CustomGenerator::infer_constraints(&param);

    assert!(constraints.iter().any(|c| matches!(c, Constraint::Pattern(_))));
}

#[test]
fn test_range_generator_code() {
    let constraint = Constraint::Range { min: 1, max: 100 };
    let code = CustomGenerator::create_bounded_generator(&constraint);

    assert!(code.contains("1") && code.contains("100"));
    assert!(code.contains(".."));
}

#[test]
fn test_regex_generator_code() {
    let pattern = "[a-z]{3,10}";
    let code = CustomGenerator::create_regex_generator(pattern);

    assert!(code.contains("string_regex"));
    assert!(code.contains(pattern));
}

#[test]
fn test_email_generator() {
    let gen = email_generator();
    assert_eq!(gen.generator_name, "email");
    assert!(gen.strategy_code.contains("@"));
}

#[test]
fn test_non_zero_constraint() {
    let param = Parameter {
        name: "divisor".to_string(),
        param_type: Type::Primitive("i32".to_string()),
        is_mutable: false,
    };

    let constraints = CustomGenerator::infer_constraints(&param);

    assert!(constraints.iter().any(|c| matches!(c, Constraint::NonZero)));
}

#[test]
fn test_index_constraints() {
    let param = Parameter {
        name: "index".to_string(),
        param_type: Type::Primitive("usize".to_string()),
        is_mutable: false,
    };

    let gen = CustomGenerator::from_parameter(&param).unwrap();

    assert!(gen.constraints.len() > 0);
}

// Milestone 5 Tests
#[test]
fn test_numeric_shrink_strategy() {
    let typ = Type::Primitive("i32".to_string());
    let strategy = ShrinkStrategy::create_shrink_strategy(&typ);

    assert!(strategy.shrink_steps.contains(&ShrinkStep::TowardsZero));
}

#[test]
fn test_vec_shrink_strategy() {
    let typ = Type::Vec(Box::new(Type::Primitive("i32".to_string())));
    let strategy = ShrinkStrategy::create_shrink_strategy(&typ);

    assert!(strategy
        .shrink_steps
        .contains(&ShrinkStep::RemoveElements));
}

#[test]
fn test_string_shrink_strategy() {
    let typ = Type::Primitive("String".to_string());
    let strategy = ShrinkStrategy::create_shrink_strategy(&typ);

    assert!(strategy.shrink_steps.contains(&ShrinkStep::ShortenString));
}

// Milestone 6 Tests
#[test]
fn test_config_default() {
    let config = Config::default();
    assert_eq!(config.num_cases, 100);
    assert_eq!(config.output_dir, "tests/generated");
}

#[test]
fn test_generate_for_file() {
    let config = Config::default();
    let result = generate_for_file("test.rs", &config);
    assert!(result.is_ok());
}

#[test]
fn test_generate_for_project() {
    let config = Config::default();
    let result = generate_for_project(".", &config);
    assert!(result.is_ok());
}

#[test]
fn test_parse_errors_and_parameter_names() {
    assert_eq!(FunctionSignature::parse_function("struct S;").unwrap_err(), "Not a function");
    assert_eq!(FunctionSignature::parse_function("fn broken").unwrap_err(), "Could not find function name end");
    let sig = FunctionSignature::parse_function("fn f(mut x: u8, y: &mut Vec<i32>, z: Option<(i32, bool)>) -> Result<i32, String>").unwrap();
    assert_eq!(sig.parameters.len(), 3);
    assert_eq!(sig.parameters[0].name, "x");
    assert!(sig.parameters[0].is_mutable);
    assert_eq!(sig.parameters[1].name, "y");
    assert!(sig.parameters[1].is_mutable);
    assert_eq!(sig.parameters[2].param_type, Type::Option(Box::new(Type::Tuple(vec![
        Type::Primitive("i32".to_string()),
        Type::Primitive("bool".to_string()),
    ]))));
    assert_eq!(sig.return_type, Some(Type::Result(
        Box::new(Type::Primitive("i32".to_string())),
        Box::new(Type::Primitive("String".to_string())),
    )));
}

#[test]
fn test_inferred_property_names_and_identity() {
    let sig = FunctionSignature::parse_function("fn add(a: i32, b: i32) -> i32").unwrap();
    let props = PropertyInference::new(sig).infer_properties();
    let names: Vec<String> = props.iter().map(|p| p.name.clone()).collect();
    assert_eq!(names, vec!["test_add_commutative", "test_add_associative", "test_add_identity"]);
    assert_eq!(props[2].property_type, PropertyType::Identity("0".to_string()));
    assert_eq!(props[2].description, "add has identity element 0");
}

#[test]
fn test_constraints_use_lowercase_name() {
    let param = Parameter {
        name: "UserAGE".to_string(),
        param_type: Type::Primitive("u8".to_string()),
        is_mutable: false,
    };
    let gen = CustomGenerator::from_parameter(&param).unwrap();
    assert!(matches!(gen.constraints[0], Constraint::Range { min: 0, max: 150 }));
    assert_eq!(gen.strategy_code, "0..=150");
    assert_eq!(age_generator().strategy_code, "0..=150");
    assert_eq!(
        CustomGenerator::create_bounded_generator(&Constraint::Range { min: -5, max: 7 }),
        "-5..=7"
    );
}
