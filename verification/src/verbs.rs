use vstd::prelude::*;

verus! {

/// The comparison operators of conditions.
#[derive(Debug, Clone, Copy, PartialEq, Eq, Structural, Hash)]
pub enum ComparisonVerb {
    Equal,
    NotEqual,
    GreaterThan,
    GreaterThanEqual,
    LessThan,
    LessThanEqual,
}

/// The textual forms of a comparison operator that `ComparisonVerb::from` accepts.
pub open spec fn comparison_verb_of(verb: Seq<char>) -> Option<ComparisonVerb> {
    if verb == "="@ || verb == "=="@ {
        Some(ComparisonVerb::Equal)
    } else if verb == "!="@ {
        Some(ComparisonVerb::NotEqual)
    } else if verb == ">"@ {
        Some(ComparisonVerb::GreaterThan)
    } else if verb == ">="@ {
        Some(ComparisonVerb::GreaterThanEqual)
    } else if verb == "<"@ {
        Some(ComparisonVerb::LessThan)
    } else if verb == "<="@ {
        Some(ComparisonVerb::LessThanEqual)
    } else {
        None
    }
}

/// The text that displays a comparison operator.
pub open spec fn comparison_verb_text(verb: ComparisonVerb) -> Seq<char> {
    match verb {
        ComparisonVerb::Equal => "=="@,
        ComparisonVerb::NotEqual => "!="@,
        ComparisonVerb::GreaterThan => ">"@,
        ComparisonVerb::GreaterThanEqual => ">="@,
        ComparisonVerb::LessThan => "<"@,
        ComparisonVerb::LessThanEqual => "<="@,
    }
}

pub(crate) fn str_eq(a: &str, b: &str) -> (r: bool)
    ensures
        r == (a@ == b@),
{
    let n = a.unicode_len();
    if n != b.unicode_len() {
        return false;
    }
    let mut i: usize = 0;
    while i < n
        invariant
            n == a@.len(),
            n == b@.len(),
            i <= n,
            forall|j: int| 0 <= j < i ==> a@[j] == b@[j],
        decreases n - i,
    {
        if a.get_char(i) != b.get_char(i) {
            return false;
        }
        i = i + 1;
    }
    assert(a@ =~= b@);
    true
}

impl ComparisonVerb {
    /// The comparison operator written as `verb` ("=" or "==", "!=", ">", ">=", "<", "<=").
    pub fn from(verb: &str) -> (r: ComparisonVerb)
        requires
            comparison_verb_of(verb@) is Some,
        ensures
            Some(r) == comparison_verb_of(verb@),
    {
        if str_eq(verb, "=") || str_eq(verb, "==") {
            ComparisonVerb::Equal
        } else if str_eq(verb, "!=") {
            ComparisonVerb::NotEqual
        } else if str_eq(verb, ">") {
            ComparisonVerb::GreaterThan
        } else if str_eq(verb, ">=") {
            ComparisonVerb::GreaterThanEqual
        } else if str_eq(verb, "<") {
            ComparisonVerb::LessThan
        } else {
            ComparisonVerb::LessThanEqual
        }
    }

    /// The text of the operator ("==", "!=", ">", ">=", "<", "<=").
    pub fn display(&self) -> (r: String)
        ensures
            r@ == comparison_verb_text(*self),
    {
        String::from_str(match self {
            ComparisonVerb::Equal => "==",
            ComparisonVerb::NotEqual => "!=",
            ComparisonVerb::GreaterThan => ">",
            ComparisonVerb::GreaterThanEqual => ">=",
            ComparisonVerb::LessThan => "<",
            ComparisonVerb::LessThanEqual => "<=",
        })
    }
}

/// The arithmetic operators of assignments.
#[derive(Debug, Clone, Copy, PartialEq, Eq, Structural, Hash)]
pub enum OperatorVerb {
    Plus,
    Minus,
    Multiply,
}

/// The textual forms of an operator that `OperatorVerb::from` accepts.
pub open spec fn operator_verb_of(verb: Seq<char>) -> Option<OperatorVerb> {
    if verb == "+"@ {
        Some(OperatorVerb::Plus)
    } else if verb == "-"@ {
        Some(OperatorVerb::Minus)
    } else if verb == "*"@ {
        Some(OperatorVerb::Multiply)
    } else {
        None
    }
}

/// The text that displays an operator.
pub open spec fn operator_verb_text(verb: OperatorVerb) -> Seq<char> {
    match verb {
        OperatorVerb::Plus => "+"@,
        OperatorVerb::Minus => "-"@,
        OperatorVerb::Multiply => "*"@,
    }
}

impl OperatorVerb {
    /// The operator written as `verb` ("+", "-" or "*").
    pub fn from(verb: &str) -> (r: OperatorVerb)
        requires
            operator_verb_of(verb@) is Some,
        ensures
            Some(r) == operator_verb_of(verb@),
    {
        if str_eq(verb, "+") {
            OperatorVerb::Plus
        } else if str_eq(verb, "-") {
            OperatorVerb::Minus
        } else {
            OperatorVerb::Multiply
        }
    }

    /// The text of the operator ("+", "-" or "*").
    pub fn display(&self) -> (r: String)
        ensures
            r@ == operator_verb_text(*self),
    {
        String::from_str(match self {
            OperatorVerb::Plus => "+",
            OperatorVerb::Minus => "-",
            OperatorVerb::Multiply => "*",
        })
    }
}

} // verus!
