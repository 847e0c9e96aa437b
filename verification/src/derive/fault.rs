//! Why a derive is refused.
use crate::derive::member::Member;
use crate::derive::syntax::{error_at, error_in, first_span, messages_of, report, reports};
use crate::derive::tokens::{tokens_of, Token};
use proc_macro2::{Span, TokenStream};
use vstd::prelude::*;
use vstd::string::*;

verus! {

/// What is wrong with the arguments of an `eulogy` attribute.
#[derive(Clone, Copy, PartialEq, Eq, Structural)]
pub enum ArgFault {
    /// A key has to stand here, not some other token.
    Key,
    /// A key has to stand here, not a literal.
    LiteralKey,
    /// A key has to stand here, where the arguments end.
    KeyAtEnd,
    /// An identifier has to follow `::`.
    Segment,
    /// An identifier has to follow `::`, where the arguments end.
    SegmentAtEnd,
    /// The key is neither `after` nor `skip`.
    Unknown,
    /// An `=` has to follow `after`.
    Equals,
    /// A list in brackets has to follow `after =`.
    List,
    /// A list in brackets has to follow `after =`, where the arguments end.
    ListAtEnd,
    /// A comma has to stand between two arguments.
    Comma,
}

/// What is wrong with an entry of an `after` list.
#[derive(Clone, Copy, PartialEq, Eq, Structural)]
pub enum DepFault {
    /// It names the field that it stands at.
    Itself,
    /// It names no field.
    Missing,
    /// It names a field that is not cleaned up.
    Skipped,
}

/// What a list of fields belongs to.
#[derive(Clone, Copy, PartialEq, Eq, Structural)]
pub enum Owner {
    Struct,
    Variant,
}

/// A rule that the item breaks.
pub enum Fault {
    /// The item is a union.
    Union,
    /// The arguments of an attribute are malformed.
    Arg(ArgFault),
    /// An element of an `after` list is neither a name nor an index.
    Element,
    /// A field has `skip` as well as `after`.
    SkipWithAfter,
    /// An entry of an `after` list cannot be met.
    Dep(DepFault, Member, Owner),
    /// Fields wait for each other in a circle.
    Cycle,
}

impl ArgFault {
    /// The message of the fault.
    pub open spec fn message(self) -> Seq<char> {
        match self {
            ArgFault::Key => "unexpected token in nested attribute, expected ident"@,
            ArgFault::LiteralKey => "unexpected literal in nested attribute, expected ident"@,
            ArgFault::KeyAtEnd => "unexpected end of input, expected nested attribute"@,
            ArgFault::Segment => "expected ident"@,
            ArgFault::SegmentAtEnd => "unexpected end of input, expected ident"@,
            ArgFault::Unknown => "unknown #[eulogy(...)] key — expected `after` or `skip`"@,
            ArgFault::Equals => "expected `=`"@,
            ArgFault::List => "expected square brackets"@,
            ArgFault::ListAtEnd => "unexpected end of input, expected square brackets"@,
            ArgFault::Comma => "expected `,`"@,
        }
    }

    /// The message of the fault.
    pub fn text(self) -> (text: String)
        ensures
            text@ == self.message(),
    {
        String::from_str(
            match self {
                ArgFault::Key => "unexpected token in nested attribute, expected ident",
                ArgFault::LiteralKey => "unexpected literal in nested attribute, expected ident",
                ArgFault::KeyAtEnd => "unexpected end of input, expected nested attribute",
                ArgFault::Segment => "expected ident",
                ArgFault::SegmentAtEnd => "unexpected end of input, expected ident",
                ArgFault::Unknown => "unknown #[eulogy(...)] key — expected `after` or `skip`",
                ArgFault::Equals => "expected `=`",
                ArgFault::List => "expected square brackets",
                ArgFault::ListAtEnd => "unexpected end of input, expected square brackets",
                ArgFault::Comma => "expected `,`",
            },
        )
    }
}

/// The message for an entry of an `after` list that cannot be met.
pub open spec fn dep_message(fault: DepFault, dep: Seq<char>, owner: Owner) -> Seq<char> {
    match (fault, owner) {
        (DepFault::Itself, _) => "field `"@ + dep
            + "` cannot list itself in #[eulogy(after = [...])]"@,
        (DepFault::Missing, Owner::Struct) => "no field `"@ + dep + "` in this struct"@,
        (DepFault::Missing, Owner::Variant) => "no field `"@ + dep + "` in this variant"@,
        (DepFault::Skipped, _) => "field `"@ + dep
            + "` is skipped or unannotated — it cannot appear in an `after` list"@,
    }
}

/// The message for an item that is a union.
pub open spec fn union_message() -> Seq<char> {
    "#[derive(AsyncDrop)] only supports structs and enums"@
}

/// The message for an element that is neither a name nor an index.
pub open spec fn element_message() -> Seq<char> {
    "expected a field name or index"@
}

/// The message for a field with both arguments.
pub open spec fn skip_message() -> Seq<char> {
    "`skip` cannot be combined with `after` — pick one"@
}

/// The message for fields that wait for each other.
pub open spec fn cycle_message() -> Seq<char> {
    "cycle detected in #[eulogy(after = [...])] dependencies"@
}

impl Fault {
    /// The message of the fault.
    pub open spec fn message(self) -> Seq<char> {
        match self {
            Fault::Union => union_message(),
            Fault::Arg(fault) => fault.message(),
            Fault::Element => element_message(),
            Fault::SkipWithAfter => skip_message(),
            Fault::Dep(fault, dep, owner) => dep_message(fault, dep@.text(), owner),
            Fault::Cycle => cycle_message(),
        }
    }

    /// The message of the fault.
    pub fn text(&self) -> (text: String)
        ensures
            text@ == self.message(),
    {
        match self {
            Fault::Union => String::from_str(
                "#[derive(AsyncDrop)] only supports structs and enums",
            ),
            Fault::Arg(fault) => fault.text(),
            Fault::Element => String::from_str("expected a field name or index"),
            Fault::SkipWithAfter => String::from_str(
                "`skip` cannot be combined with `after` — pick one",
            ),
            Fault::Dep(fault, dep, owner) => {
                let name = dep.text();
                match (*fault, *owner) {
                    (DepFault::Itself, _) => String::from_str("field `").concat(
                        name.as_str(),
                    ).concat("` cannot list itself in #[eulogy(after = [...])]"),
                    (DepFault::Missing, Owner::Struct) => String::from_str("no field `").concat(
                        name.as_str(),
                    ).concat("` in this struct"),
                    (DepFault::Missing, Owner::Variant) => String::from_str("no field `").concat(
                        name.as_str(),
                    ).concat("` in this variant"),
                    (DepFault::Skipped, _) => String::from_str("field `").concat(
                        name.as_str(),
                    ).concat("` is skipped or unannotated — it cannot appear in an `after` list"),
                }
            },
            Fault::Cycle => String::from_str(
                "cycle detected in #[eulogy(after = [...])] dependencies",
            ),
        }
    }
}

/// Where an error is shown.
pub enum Place {
    /// At all of these tokens.
    Whole(TokenStream),
    /// At the first of these tokens; of a group, at its opening delimiter.
    Start(TokenStream),
    /// At the closing delimiter of the arguments.
    End(Span),
}

/// What a [`Place`] stands for.
pub enum At {
    Whole(Seq<Token>),
    Start(Seq<Token>),
    End,
}

impl Place {
    pub open spec fn at(self) -> At {
        match self {
            Place::Whole(tokens) => At::Whole(tokens_of(tokens)),
            Place::Start(tokens) => At::Start(tokens_of(tokens)),
            Place::End(_) => At::End,
        }
    }
}

/// Why a derive is refused, and where.
pub enum DeriveError {
    /// The input is not what the `syn` crate expects, which says where.
    Syntax(syn::Error),
    /// The input breaks a rule.
    Rule(Fault, Place),
}

/// What a [`DeriveError`] stands for.
pub enum Refusal {
    /// The messages of the `syn` crate.
    Syntax(Seq<Seq<char>>),
    /// A message, and where it is shown.
    Rule(Seq<char>, At),
}

impl Refusal {
    /// The messages that the compiler shows.
    pub open spec fn messages(self) -> Seq<Seq<char>> {
        match self {
            Refusal::Syntax(messages) => messages,
            Refusal::Rule(message, _) => seq![message],
        }
    }
}

impl DeriveError {
    pub open spec fn refusal(self) -> Refusal {
        match self {
            DeriveError::Syntax(error) => Refusal::Syntax(messages_of(error)),
            DeriveError::Rule(fault, place) => Refusal::Rule(fault.message(), place.at()),
        }
    }

    /// The tokens that make the compiler show the messages.
    pub fn to_tokens(&self) -> (stream: TokenStream)
        ensures
            reports(tokens_of(stream), self.refusal().messages()),
    {
        match self {
            DeriveError::Syntax(error) => report(error),
            DeriveError::Rule(fault, Place::Whole(tokens)) => report(
                &error_at(tokens, fault.text().as_str()),
            ),
            DeriveError::Rule(fault, Place::Start(tokens)) => report(
                &error_in(first_span(tokens), fault.text().as_str()),
            ),
            DeriveError::Rule(fault, Place::End(span)) => report(
                &error_in(*span, fault.text().as_str()),
            ),
        }
    }
}

/// What is said of an entry of an `after` list that cannot be met tells its name, in full, and where
/// there is no such field also where it was looked for.
pub proof fn law_the_name_is_told(fault: DepFault, dep: Seq<char>, owner: Owner)
    ensures
        match fault {
            DepFault::Itself => dep_message(fault, dep, owner) == "field `"@ + dep
                + "` cannot list itself in #[eulogy(after = [...])]"@,
            DepFault::Skipped => dep_message(fault, dep, owner) == "field `"@ + dep
                + "` is skipped or unannotated — it cannot appear in an `after` list"@,
            DepFault::Missing => dep_message(fault, dep, owner) == "no field `"@ + dep + (
            if owner is Struct {
                "` in this struct"@
            } else {
                "` in this variant"@
            }),
        },
{
}

/// An error is told in full: all messages of the `syn` crate, or the one message of the rule that is
/// broken, and where that is.
pub proof fn law_an_error_is_told(error: DeriveError)
    ensures
        match error {
            DeriveError::Syntax(error) => {
                &&& DeriveError::Syntax(error).refusal() == Refusal::Syntax(messages_of(error))
                &&& DeriveError::Syntax(error).refusal().messages() == messages_of(error)
            },
            DeriveError::Rule(fault, place) => {
                &&& error.refusal() matches Refusal::Rule(message, at) && message
                    == fault.message() && match place {
                    Place::Whole(tokens) => at == At::Whole(tokens_of(tokens)),
                    Place::Start(tokens) => at == At::Start(tokens_of(tokens)),
                    Place::End(_) => at is End,
                }
                &&& error.refusal().messages() == seq![fault.message()]
            },
        },
{
}

/// What the compiler is made to show is what the error says.
pub proof fn law_what_is_shown(error: &DeriveError, stream: TokenStream)
    requires
        call_ensures(DeriveError::to_tokens, (error,), stream),
    ensures
        match error {
            DeriveError::Syntax(error) => reports(tokens_of(stream), messages_of(*error)),
            DeriveError::Rule(Fault::Dep(fault, dep, owner), _) => reports(
                tokens_of(stream),
                seq![dep_message(*fault, dep@.text(), *owner)],
            ),
            DeriveError::Rule(fault, _) => reports(tokens_of(stream), seq![fault.message()]),
        },
{
}

/// Every fault in the arguments of an attribute has a message of its own.
pub proof fn law_an_argument_fault_is_told(fault: ArgFault)
    ensures
        match fault {
            ArgFault::Key => fault.message()
                == "unexpected token in nested attribute, expected ident"@,
            ArgFault::LiteralKey => fault.message()
                == "unexpected literal in nested attribute, expected ident"@,
            ArgFault::KeyAtEnd => fault.message()
                == "unexpected end of input, expected nested attribute"@,
            ArgFault::Segment => fault.message() == "expected ident"@,
            ArgFault::SegmentAtEnd => fault.message() == "unexpected end of input, expected ident"@,
            ArgFault::Unknown => fault.message()
                == "unknown #[eulogy(...)] key — expected `after` or `skip`"@,
            ArgFault::Equals => fault.message() == "expected `=`"@,
            ArgFault::List => fault.message() == "expected square brackets"@,
            ArgFault::ListAtEnd => fault.message()
                == "unexpected end of input, expected square brackets"@,
            ArgFault::Comma => fault.message() == "expected `,`"@,
        },
{
}

} // verus!
