//! Ready-made generators for common kinds of values.
use vstd::prelude::*;
use crate::text::owned;
use crate::propgen::{Constraint, CustomGenerator, Type, email_pattern, regex_text};

verus! {

/// E-mail addresses.
pub fn email_generator() -> (r: CustomGenerator)
    ensures
        r.generator_name@ == "email"@,
        r.base_type matches Type::Primitive(x) && x@ == "String"@,
        r.constraints@.len() == 1,
        r.constraints@[0] matches Constraint::Pattern(p) && p@ == email_pattern(),
        r.strategy_code@ == regex_text(email_pattern()),
{
    CustomGenerator {
        generator_name: owned("email"),
        base_type: Type::Primitive(owned("String")),
        constraints: vec![Constraint::Pattern(owned("[a-z0-9.]+@[a-z0-9]+\\.[a-z]{2,}"))],
        strategy_code: crate::propgen::CustomGenerator::create_regex_generator("[a-z0-9.]+@[a-z0-9]+\\.[a-z]{2,}"),
    }
}

/// Ages from 0 to 150.
pub fn age_generator() -> (r: CustomGenerator)
    ensures
        r.generator_name@ == "age"@,
        r.base_type matches Type::Primitive(x) && x@ == "i32"@,
        r.constraints@.len() == 1,
        r.constraints@[0] matches Constraint::Range { min, max } && min == 0 && max == 150,
        r.strategy_code@ == "0..=150"@,
{
    CustomGenerator {
        generator_name: owned("age"),
        base_type: Type::Primitive(owned("i32")),
        constraints: vec![Constraint::Range { min: 0, max: 150 }],
        strategy_code: owned("0..=150"),
    }
}

/// Non-empty strings.
pub fn non_empty_string_generator() -> (r: CustomGenerator)
    ensures
        r.generator_name@ == "non_empty_string"@,
        r.base_type matches Type::Primitive(x) && x@ == "String"@,
        r.constraints@.len() == 1,
        r.constraints@[0] is NonEmpty,
        r.strategy_code@ == "prop::string::string_regex(\".+\").unwrap()"@,
{
    CustomGenerator {
        generator_name: owned("non_empty_string"),
        base_type: Type::Primitive(owned("String")),
        constraints: vec![Constraint::NonEmpty],
        strategy_code: owned("prop::string::string_regex(\".+\").unwrap()"),
    }
}

/// Positive integers.
pub fn positive_int_generator() -> (r: CustomGenerator)
    ensures
        r.generator_name@ == "positive_int"@,
        r.base_type matches Type::Primitive(x) && x@ == "i32"@,
        r.constraints@.len() == 1,
        r.constraints@[0] is Positive,
        r.strategy_code@ == "1..=i32::MAX"@,
{
    CustomGenerator {
        generator_name: owned("positive_int"),
        base_type: Type::Primitive(owned("i32")),
        constraints: vec![Constraint::Positive],
        strategy_code: owned("1..=i32::MAX"),
    }
}

} // verus!
