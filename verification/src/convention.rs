//! The naming conventions and the tokens that name them.

use crate::bytes::same_text;
use convert_case::Case;
use vstd::prelude::*;

verus! {

/// A naming convention: how the words of a name are cased and joined.
///
/// Some conventions keep no trace of where one word ends and the next
/// begins, so a name that was converted to one of them cannot always be
/// converted back.
#[derive(Clone, Copy, Debug, PartialEq, Eq, Structural)]
pub enum Convention {
    /// `Title Case`: words are capitalised and separated by spaces.
    TitleCase,
    /// `flatcase`: lower case, nothing between the words.
    FlatCase,
    /// `UPPERFLATCASE`: upper case, nothing between the words.
    UpperFlatCase,
    /// `camelCase`: every word but the first is capitalised, nothing between
    /// the words.
    CamelCase,
    /// `UpperCamelCase`: every word is capitalised, nothing between the
    /// words.
    UpperCamelCase,
    /// `snake_case`: lower case, words separated by `_`.
    SnakeCase,
    /// `UPPER_SNAKE_CASE`: upper case, words separated by `_`.
    UpperSnakeCase,
    /// `kebab-case`: lower case, words separated by `-`.
    KebabCase,
}

impl Convention {
    /// The case of `convert_case` that stands for this convention.
    pub open spec fn case(self) -> Case {
        match self {
            Convention::TitleCase => Case::Title,
            Convention::FlatCase => Case::Flat,
            Convention::UpperFlatCase => Case::UpperFlat,
            Convention::CamelCase => Case::Camel,
            Convention::UpperCamelCase => Case::UpperCamel,
            Convention::SnakeCase => Case::Snake,
            Convention::UpperSnakeCase => Case::UpperSnake,
            Convention::KebabCase => Case::Kebab,
        }
    }

    /// The token that names this convention. Tokens are case-sensitive:
    /// `flat` and `FLAT` name two conventions.
    pub open spec fn token(self) -> Seq<char> {
        match self {
            Convention::TitleCase => "title"@,
            Convention::FlatCase => "flat"@,
            Convention::UpperFlatCase => "FLAT"@,
            Convention::CamelCase => "camel"@,
            Convention::UpperCamelCase => "CAMEL"@,
            Convention::SnakeCase => "snake"@,
            Convention::UpperSnakeCase => "SNAKE"@,
            Convention::KebabCase => "kebab"@,
        }
    }

    /// The convention that `token` names, if it names one.
    pub open spec fn named(token: Seq<char>) -> Option<Convention> {
        if token == Convention::TitleCase.token() {
            Some(Convention::TitleCase)
        } else if token == Convention::FlatCase.token() {
            Some(Convention::FlatCase)
        } else if token == Convention::UpperFlatCase.token() {
            Some(Convention::UpperFlatCase)
        } else if token == Convention::CamelCase.token() {
            Some(Convention::CamelCase)
        } else if token == Convention::UpperCamelCase.token() {
            Some(Convention::UpperCamelCase)
        } else if token == Convention::SnakeCase.token() {
            Some(Convention::SnakeCase)
        } else if token == Convention::UpperSnakeCase.token() {
            Some(Convention::UpperSnakeCase)
        } else if token == Convention::KebabCase.token() {
            Some(Convention::KebabCase)
        } else {
            None
        }
    }

    /// What [`Convention::try_from`] answers to a token that names no
    /// convention.
    pub open spec fn unsupported(token: Seq<char>) -> Seq<char> {
        "Unsupported naming convention '"@ + token + "'"@
    }

    /// No two conventions share a token: each convention is the one that
    /// its own token names, and a token names at most the convention whose
    /// token it is.
    pub proof fn lemma_tokens_are_distinct(self, token: Seq<char>)
        ensures
            Convention::named(self.token()) == Some(self),
            Convention::named(token) == Some(self) <==> token == self.token(),
    {
        reveal_strlit("title");
        reveal_strlit("flat");
        reveal_strlit("FLAT");
        reveal_strlit("camel");
        reveal_strlit("CAMEL");
        reveal_strlit("snake");
        reveal_strlit("SNAKE");
        reveal_strlit("kebab");
        assert("title"@[0] == 't' && "flat"@[0] == 'f' && "FLAT"@[0] == 'F' && "camel"@[0] == 'c');
        assert("CAMEL"@[0] == 'C' && "snake"@[0] == 's' && "SNAKE"@[0] == 'S' && "kebab"@[0] == 'k');
    }
}

impl From<Convention> for Case {
    fn from(convention: Convention) -> (case: Case)
        ensures
            case == convention.case(),
    {
        match convention {
            Convention::TitleCase => Case::Title,
            Convention::FlatCase => Case::Flat,
            Convention::UpperFlatCase => Case::UpperFlat,
            Convention::CamelCase => Case::Camel,
            Convention::UpperCamelCase => Case::UpperCamel,
            Convention::SnakeCase => Case::Snake,
            Convention::UpperSnakeCase => Case::UpperSnake,
            Convention::KebabCase => Case::Kebab,
        }
    }
}

impl vstd::std_specs::convert::FromSpecImpl<Convention> for Case {
    open spec fn obeys_from_spec() -> bool {
        true
    }

    open spec fn from_spec(convention: Convention) -> Case {
        convention.case()
    }
}

impl TryFrom<&str> for Convention {
    type Error = String;

    /// Reads a convention from its token. One of the eight tokens gives its
    /// convention; anything else gives a message that quotes it.
    fn try_from(token: &str) -> (parsed: Result<Convention, String>)
        ensures
            match Convention::named(token@) {
                Some(convention) => parsed == Ok::<Convention, String>(convention),
                None => parsed is Err && parsed->Err_0@ == Convention::unsupported(token@),
            },
    {
        if same_text(token, "title") {
            Ok(Convention::TitleCase)
        } else if same_text(token, "flat") {
            Ok(Convention::FlatCase)
        } else if same_text(token, "FLAT") {
            Ok(Convention::UpperFlatCase)
        } else if same_text(token, "camel") {
            Ok(Convention::CamelCase)
        } else if same_text(token, "CAMEL") {
            Ok(Convention::UpperCamelCase)
        } else if same_text(token, "snake") {
            Ok(Convention::SnakeCase)
        } else if same_text(token, "SNAKE") {
            Ok(Convention::UpperSnakeCase)
        } else if same_text(token, "kebab") {
            Ok(Convention::KebabCase)
        } else {
            let mut message = String::from_str("Unsupported naming convention '");
            message.append(token);
            message.append("'");
            Err(message)
        }
    }
}

/// The trait-level description of `try_from` is not used: ghost code cannot
/// write down the `String` of the error, so the contract stands on the
/// function itself.
impl vstd::std_specs::convert::TryFromSpecImpl<&str> for Convention {
    open spec fn obeys_try_from_spec() -> bool {
        false
    }

    open spec fn try_from_spec(token: &str) -> Result<Convention, String> {
        arbitrary()
    }
}

} // verus!
