//! How a field is referred to: by name, or by position in a tuple.
use vstd::prelude::*;
use vstd::string::*;

verus! {

/// A field of a struct or a variant.
pub enum Member {
    /// A field with a name.
    Named(String),
    /// A field of a tuple, by position.
    Unnamed(u32),
}

/// What a [`Member`] stands for.
pub enum MemberName {
    Named(Seq<char>),
    Unnamed(u32),
}

/// A digit as a character.
pub open spec fn digit(d: nat) -> char {
    (48 + d) as char
}

/// A number in decimal notation.
pub open spec fn decimal(n: nat) -> Seq<char>
    decreases n,
{
    if n < 10 {
        seq![digit(n)]
    } else {
        decimal(n / 10).push(digit(n % 10))
    }
}

impl MemberName {
    /// How the member is written in source.
    pub open spec fn text(self) -> Seq<char> {
        match self {
            MemberName::Named(name) => name,
            MemberName::Unnamed(index) => decimal(index as nat),
        }
    }
}

impl View for Member {
    type V = MemberName;

    open spec fn view(&self) -> MemberName {
        match self {
            Member::Named(name) => MemberName::Named(name@),
            Member::Unnamed(index) => MemberName::Unnamed(*index),
        }
    }
}

/// The members of a list.
pub open spec fn names_of(members: Seq<Member>) -> Seq<MemberName> {
    Seq::new(members.len(), |i: int| members[i]@)
}

/// A digit as text.
fn digit_text(d: u64) -> (text: &'static str)
    requires
        d < 10,
    ensures
        text@ == seq![digit(d as nat)],
{
    proof {
        reveal_strlit("0");
        reveal_strlit("1");
        reveal_strlit("2");
        reveal_strlit("3");
        reveal_strlit("4");
        reveal_strlit("5");
        reveal_strlit("6");
        reveal_strlit("7");
        reveal_strlit("8");
        reveal_strlit("9");
    }
    match d {
        0 => "0",
        1 => "1",
        2 => "2",
        3 => "3",
        4 => "4",
        5 => "5",
        6 => "6",
        7 => "7",
        8 => "8",
        _ => "9",
    }
}

/// A number in decimal notation.
pub fn decimal_text(n: u64) -> (text: String)
    ensures
        text@ == decimal(n as nat),
    decreases n,
{
    if n < 10 {
        String::from_str(digit_text(n))
    } else {
        decimal_text(n / 10).concat(digit_text(n % 10))
    }
}

impl Member {
    /// Whether two members are the same.
    pub fn same(&self, other: &Member) -> (same: bool)
        ensures
            same == (self@ == other@),
    {
        match (self, other) {
            (Member::Named(a), Member::Named(b)) => *a == *b,
            (Member::Unnamed(a), Member::Unnamed(b)) => *a == *b,
            _ => false,
        }
    }

    /// How the member is written in source.
    pub fn text(&self) -> (text: String)
        ensures
            text@ == self@.text(),
    {
        match self {
            Member::Named(name) => name.clone(),
            Member::Unnamed(index) => decimal_text(*index as u64),
        }
    }

    /// Another copy of the member.
    pub fn copy(&self) -> (member: Member)
        ensures
            member@ == self@,
    {
        match self {
            Member::Named(name) => Member::Named(name.clone()),
            Member::Unnamed(index) => Member::Unnamed(*index),
        }
    }
}

/// The number that digits stand for.
pub open spec fn number_in(text: Seq<char>) -> int
    decreases text.len(),
{
    if text.len() == 0 {
        0
    } else {
        10 * number_in(text.drop_last()) + (text.last() as int - '0' as int)
    }
}

/// A number that is written in decimal notation is read back as the same number. It is written in
/// digits, and without a zero in front unless it is zero.
pub proof fn law_decimal_is_read_back(n: nat)
    ensures
        number_in(decimal(n)) == n,
        decimal(n).len() > 0,
        forall|i: int| 0 <= i < decimal(n).len() ==> '0' <= #[trigger] decimal(n)[i] <= '9',
        n > 0 ==> decimal(n)[0] != '0',
        n == 0 ==> decimal(n).len() == 1,
    decreases n,
{
    if n < 10 {
        assert(decimal(n).drop_last() =~= Seq::empty());
        assert(number_in(Seq::<char>::empty()) == 0);
        assert(decimal(n).last() == digit(n));
    } else {
        law_decimal_is_read_back(n / 10);
        let rest = decimal(n / 10);
        assert(decimal(n).drop_last() =~= rest);
        assert(decimal(n).last() == digit(n % 10));
        assert forall|i: int| 0 <= i < decimal(n).len() implies '0' <= #[trigger] decimal(n)[i]
            <= '9' by {
            if i < rest.len() {
                assert(decimal(n)[i] == rest[i]);
            }
        }
        assert(decimal(n)[0] == rest[0]);
    }
}

/// Two numbers that are written alike are the same.
pub proof fn law_numbers_are_told_apart(m: nat, n: nat)
    requires
        decimal(m) == decimal(n),
    ensures
        m == n,
{
    law_decimal_is_read_back(m);
    law_decimal_is_read_back(n);
}

/// A member is written as its name, or as its place in decimal notation: two members of one kind
/// that are written alike are the same.
pub proof fn law_members_are_told_apart(a: MemberName, b: MemberName)
    requires
        a is Named <==> b is Named,
        a.text() == b.text(),
    ensures
        a == b,
        a matches MemberName::Named(name) ==> a.text() == name,
        a matches MemberName::Unnamed(index) ==> number_in(a.text()) == index,
{
    match (a, b) {
        (MemberName::Unnamed(i), MemberName::Unnamed(j)) => {
            law_numbers_are_told_apart(i as nat, j as nat);
            law_decimal_is_read_back(i as nat);
        },
        _ => {},
    }
}

/// A list of members stands for the list of what each of them stands for, and whether two members
/// are the same is decided by that alone.
pub proof fn law_members_stand_for_themselves(members: Seq<Member>, i: int)
    requires
        0 <= i < members.len(),
    ensures
        names_of(members).len() == members.len(),
        match members[i] {
            Member::Named(name) => names_of(members)[i] == MemberName::Named(name@),
            Member::Unnamed(index) => names_of(members)[i] == MemberName::Unnamed(index),
        },
{
}

} // verus!
