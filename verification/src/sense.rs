//! The senses of objectives and constraints, and how a constraint sense is
//! read from a number or a textual alias.

use vstd::prelude::*;
use crate::text::str_eq;

verus! {

/// Whether an objective is minimized or maximized.
#[derive(Debug, Clone, Copy, PartialEq, Eq, Structural)]
pub enum Sense {
    Minimize,
    Maximize,
}

/// The comparison of a constraint.
#[derive(Debug, Clone, Copy, PartialEq, Eq, Structural)]
pub enum ComparisonSense {
    /// Greater than or equal (`>=`).
    GreaterEqual,
    /// Less than or equal (`<=`).
    LessEqual,
    /// Exactly equal (`==`).
    Equal,
}

/// Why a comparison sense could not be read.
#[derive(Debug, PartialEq, Eq)]
pub enum SenseError {
    /// A number that is no variant's ordinal.
    InvalidValue(i64),
    /// Text that is no alias of a sense.
    InvalidAlias(String),
}

/// The sense with ordinal `value` (`0` for `>=`, `1` for `<=`, `2` for
/// `==`).
pub open spec fn sense_of_ordinal(value: i64) -> Option<ComparisonSense> {
    if value == 0 {
        Some(ComparisonSense::GreaterEqual)
    } else if value == 1 {
        Some(ComparisonSense::LessEqual)
    } else if value == 2 {
        Some(ComparisonSense::Equal)
    } else {
        None
    }
}

/// The sense a lowercase alias names: `ge` or `>=`, `le` or `<=`, `eq` or
/// `==`.
pub open spec fn sense_of_alias(alias: Seq<char>) -> Option<ComparisonSense> {
    if alias == "ge"@ || alias == ">="@ {
        Some(ComparisonSense::GreaterEqual)
    } else if alias == "le"@ || alias == "<="@ {
        Some(ComparisonSense::LessEqual)
    } else if alias == "eq"@ || alias == "=="@ {
        Some(ComparisonSense::Equal)
    } else {
        None
    }
}

/// The sense with the given ordinal.
pub fn comparison_sense_from_ordinal(value: i64) -> (sense: Result<ComparisonSense, SenseError>)
    ensures
        match sense {
            Ok(s) => sense_of_ordinal(value) == Some(s),
            Err(e) => sense_of_ordinal(value) is None && e == SenseError::InvalidValue(value),
        },
{
    if value == 0 {
        Ok(ComparisonSense::GreaterEqual)
    } else if value == 1 {
        Ok(ComparisonSense::LessEqual)
    } else if value == 2 {
        Ok(ComparisonSense::Equal)
    } else {
        Err(SenseError::InvalidValue(value))
    }
}

/// The sense an alias names, once lowercased; `None` for any other text.
pub fn comparison_sense_from_lowercase(alias: &str) -> (sense: Option<ComparisonSense>)
    ensures
        sense == sense_of_alias(alias@),
{
    if str_eq(alias, "ge") || str_eq(alias, ">=") {
        Some(ComparisonSense::GreaterEqual)
    } else if str_eq(alias, "le") || str_eq(alias, "<=") {
        Some(ComparisonSense::LessEqual)
    } else if str_eq(alias, "eq") || str_eq(alias, "==") {
        Some(ComparisonSense::Equal)
    } else {
        None
    }
}

/// The lowercase form of a string, as `str::to_lowercase` gives it.
pub uninterp spec fn lowercase_of(s: Seq<char>) -> Seq<char>;

/// Lowercases a string.
///
/// Calls `str::to_lowercase`, whose result depends on the string alone (its
/// characters mapped by the Unicode lowercase property); the contract names
/// that result and claims nothing more of it.
#[verifier::external_body]
fn to_lowercase(s: &str) -> (lower: String)
    ensures
        lower@ == lowercase_of(s@),
{
    s.to_lowercase()
}

/// The sense an alias names, letter case aside; refused with the text as
/// given.
pub fn parse_comparison_sense(text: &str) -> (sense: Result<ComparisonSense, SenseError>)
    ensures
        match sense {
            Ok(s) => sense_of_alias(lowercase_of(text@)) == Some(s),
            Err(e) => sense_of_alias(lowercase_of(text@)) is None && (e matches SenseError::InvalidAlias(
                t,
            ) && t@ == text@),
        },
{
    let lower = to_lowercase(text);
    match comparison_sense_from_lowercase(lower.as_str()) {
        Some(s) => Ok(s),
        None => Err(SenseError::InvalidAlias(text.to_owned())),
    }
}

/// Each sense is read back from its ordinal and from both of its aliases.
pub proof fn lemma_sense_aliases()
    ensures
        sense_of_ordinal(0) == Some(ComparisonSense::GreaterEqual),
        sense_of_ordinal(1) == Some(ComparisonSense::LessEqual),
        sense_of_ordinal(2) == Some(ComparisonSense::Equal),
        sense_of_alias("ge"@) == Some(ComparisonSense::GreaterEqual),
        sense_of_alias(">="@) == Some(ComparisonSense::GreaterEqual),
        sense_of_alias("le"@) == Some(ComparisonSense::LessEqual),
        sense_of_alias("<="@) == Some(ComparisonSense::LessEqual),
        sense_of_alias("eq"@) == Some(ComparisonSense::Equal),
        sense_of_alias("=="@) == Some(ComparisonSense::Equal),
{
    reveal_strlit("ge");
    reveal_strlit(">=");
    reveal_strlit("le");
    reveal_strlit("<=");
    reveal_strlit("eq");
    reveal_strlit("==");
    assert("ge"@[0] == 'g' && ">="@[0] == '>' && "le"@[0] == 'l' && "<="@[0] == '<');
    assert("eq"@[0] == 'e' && "=="@[0] == '=');
    assert("le"@ != "ge"@ && "le"@ != ">="@ && "<="@ != "ge"@ && "<="@ != ">="@);
    assert("eq"@ != "ge"@ && "eq"@ != ">="@ && "=="@ != "ge"@ && "=="@ != ">="@);
    assert("eq"@ != "le"@ && "eq"@ != "<="@ && "=="@ != "le"@ && "=="@ != "<="@);
}

/// Exactly the ordinals 0, 1 and 2 are senses, `>=`, `<=` and `==` in that
/// order; exactly the aliases `ge`/`>=`, `le`/`<=` and `eq`/`==` are
/// senses, each naming the comparison it spells.
pub proof fn lemma_sense_readings(value: i64, alias: Seq<char>)
    ensures
        sense_of_ordinal(value) == Some(ComparisonSense::GreaterEqual) <==> value == 0,
        sense_of_ordinal(value) == Some(ComparisonSense::LessEqual) <==> value == 1,
        sense_of_ordinal(value) == Some(ComparisonSense::Equal) <==> value == 2,
        sense_of_ordinal(value) is None <==> !(0 <= value <= 2),
        sense_of_alias(alias) == Some(ComparisonSense::GreaterEqual) <==> (alias == "ge"@ || alias
            == ">="@),
        sense_of_alias(alias) == Some(ComparisonSense::LessEqual) <==> (alias == "le"@ || alias
            == "<="@),
        sense_of_alias(alias) == Some(ComparisonSense::Equal) <==> (alias == "eq"@ || alias
            == "=="@),
{
    lemma_sense_aliases();
}

} // verus!
