//! The naming-case transform applied to emitted names and aliases, and the
//! alias clause built from it.

use crate::TypeCases;
use vstd::prelude::*;

verus! {

/// What the camel-case transform returns for the given characters.
pub uninterp spec fn camel_of(s: Seq<char>) -> Seq<char>;

/// What the snake-case transform returns for the given characters.
pub uninterp spec fn snake_of(s: Seq<char>) -> Seq<char>;

/// Relies on `inflector::cases::camelcase::to_camel_case`: the camel-case
/// rendering of a name, a function of its characters alone.
#[verifier::external_body]
fn to_camel_case(s: &str) -> (r: String)
    ensures
        r@ == camel_of(s@),
{
    inflector::cases::camelcase::to_camel_case(s)
}

/// Relies on `inflector::cases::snakecase::to_snake_case`: the snake-case
/// rendering of a name, a function of its characters alone.
#[verifier::external_body]
fn to_snake_case(s: &str) -> (r: String)
    ensures
        r@ == snake_of(s@),
{
    inflector::cases::snakecase::to_snake_case(s)
}

/// The bare name transformed under the configured case: untouched under the
/// identity case.
pub open spec fn spec_cased_name(case: TypeCases, name: Seq<char>) -> Seq<char> {
    match case {
        TypeCases::Default => name,
        TypeCases::CamelCase => camel_of(name),
        TypeCases::SnakeCase => snake_of(name),
    }
}

/// Applies the configured case transform to a bare name.
pub fn cased_name(case: TypeCases, name: &str) -> (r: String)
    ensures
        r@ == spec_cased_name(case, name@),
{
    match case {
        TypeCases::Default => name.to_owned(),
        TypeCases::CamelCase => to_camel_case(name),
        TypeCases::SnakeCase => to_snake_case(name),
    }
}

/// The alias clause appended to a Struct-like operation line: omitted
/// entirely under the identity case (and for a transform that yields
/// nothing), otherwise `"; alias "` followed by the transformed bare name.
pub open spec fn spec_alias_suffix(case: TypeCases, name: Seq<char>) -> Seq<char> {
    match case {
        TypeCases::Default => Seq::<char>::empty(),
        TypeCases::CamelCase | TypeCases::SnakeCase => {
            let cased = spec_cased_name(case, name);
            if cased.len() == 0 {
                Seq::<char>::empty()
            } else {
                "; alias "@ + cased
            }
        },
    }
}

/// Builds the alias clause for a Struct-like operation line.
pub fn alias_suffix(case: TypeCases, name: &str) -> (r: String)
    ensures
        r@ == spec_alias_suffix(case, name@),
{
    match case {
        TypeCases::Default => String::new(),
        TypeCases::CamelCase | TypeCases::SnakeCase => {
            let cased = cased_name(case, name);
            if cased.as_str().unicode_len() == 0 {
                String::new()
            } else {
                let mut r = "; alias ".to_owned();
                r.append(cased.as_str());
                r
            }
        },
    }
}

/// Alias omission, identity half: under the identity case no operation line
/// carries an alias clause.
pub proof fn lemma_alias_omitted_under_identity(name: Seq<char>)
    ensures
        spec_alias_suffix(TypeCases::Default, name) == Seq::<char>::empty(),
{
}

/// Alias omission, transforming half: under the camel or snake case, every
/// emitted alias clause carries exactly the transformed bare name.
pub proof fn lemma_alias_is_transformed_name(case: TypeCases, name: Seq<char>)
    requires
        !(case matches TypeCases::Default),
        spec_cased_name(case, name).len() > 0,
    ensures
        spec_alias_suffix(case, name) == "; alias "@ + spec_cased_name(case, name),
{
}

} // verus!
