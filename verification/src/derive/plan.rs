//! Which fields are cleaned up, and in which order.
use crate::derive::directives::{members_of, read_field, request_of, waited_for, Dep};
use crate::derive::fault::{
    cycle_message, dep_message, At, DepFault, DeriveError, Fault, Owner, Place, Refusal,
};
use crate::derive::layers::{
    all_settle, closed_graph, is_listed, kahn_layers, law_dependency_comes_first,
    law_every_node_once, law_layers_ascend, law_no_needless_wait, layers_of, lists_of, settles,
    stands_in,
};
use crate::derive::member::{decimal, names_of, Member, MemberName};
use crate::derive::syntax::{syntax_of, Field, FieldSyntax};
use crate::derive::tokens::{copy_of, number, tokens_of, Token};
use proc_macro2::TokenStream;
use vstd::prelude::*;

verus! {

/// A field that is cleaned up, and the fields that it waits for.
pub struct Entry {
    pub member: Member,
    pub after: Vec<Member>,
}

/// What an [`Entry`] stands for.
pub struct EntryName {
    pub member: MemberName,
    pub after: Seq<MemberName>,
}

impl View for Entry {
    type V = EntryName;

    open spec fn view(&self) -> EntryName {
        EntryName { member: self.member@, after: names_of(self.after@) }
    }
}

/// What a list of entries stands for.
pub open spec fn entries_of(entries: Seq<Entry>) -> Seq<EntryName> {
    Seq::new(entries.len(), |i: int| entries[i]@)
}

/// Some entry is for this field.
pub open spec fn is_entry(entries: Seq<EntryName>, name: MemberName) -> bool {
    exists|j: int| 0 <= j < entries.len() && (#[trigger] entries[j]).member == name
}

/// What is wrong with the `p`th field that entry `e` waits for.
pub open spec fn dep_fault(
    members: Seq<MemberName>,
    entries: Seq<EntryName>,
    e: int,
    p: int,
) -> Option<DepFault> {
    let dep = entries[e].after[p];
    if dep == entries[e].member {
        Some(DepFault::Itself)
    } else if !members.contains(dep) {
        Some(DepFault::Missing)
    } else if !is_entry(entries, dep) {
        Some(DepFault::Skipped)
    } else {
        None
    }
}

/// The first fault from the `p`th field on that entry `e` waits for: entry by entry, and within an
/// entry in the order of its list.
pub open spec fn first_fault(
    members: Seq<MemberName>,
    entries: Seq<EntryName>,
    e: int,
    p: int,
) -> Option<(int, int, DepFault)>
    decreases entries.len() - e, entries[e].after.len() - p,
{
    if e < 0 || e >= entries.len() {
        None
    } else if p >= entries[e].after.len() {
        first_fault(members, entries, e + 1, 0)
    } else {
        match dep_fault(members, entries, e, p) {
            Some(fault) => Some((e, p, fault)),
            None => first_fault(members, entries, e, p + 1),
        }
    }
}

/// Whether a member is in a list.
fn contains(members: &Vec<Member>, member: &Member) -> (found: bool)
    ensures
        found == names_of(members@).contains(member@),
{
    let mut i: usize = 0;
    while i < members.len()
        invariant
            i <= members@.len(),
            forall|j: int| 0 <= j < i ==> (#[trigger] members@[j])@ != member@,
        decreases members@.len() - i,
    {
        if members[i].same(member) {
            assert(names_of(members@)[i as int] == member@);
            return true;
        }
        i += 1;
    }
    assert forall|j: int| 0 <= j < members@.len() implies names_of(members@)[j] != member@ by {
        assert(members@[j]@ != member@);
    }
    false
}

/// The place of the first entry for a field.
fn position(entries: &Vec<Entry>, member: &Member) -> (place: Option<usize>)
    ensures
        match place {
            Some(j) => j < entries@.len() && entries@[j as int]@.member == member@
                && index_from(entries_of(entries@), member@, 0) == j,
            None => !is_entry(entries_of(entries@), member@),
        },
{
    let ghost names = entries_of(entries@);
    let mut j: usize = 0;
    while j < entries.len()
        invariant
            j <= entries@.len(),
            names == entries_of(entries@),
            index_from(names, member@, 0) == index_from(names, member@, j as int),
            forall|k: int| 0 <= k < j ==> (#[trigger] names[k]).member != member@,
        decreases entries@.len() - j,
    {
        assert(names[j as int] == entries@[j as int]@);
        if entries[j].member.same(member) {
            return Some(j);
        }
        j += 1;
    }
    None
}

/// The first entry from `j` on that is for this field.
pub open spec fn index_from(entries: Seq<EntryName>, name: MemberName, j: int) -> int
    decreases entries.len() - j,
{
    if j < 0 || j >= entries.len() || entries[j].member == name {
        j
    } else {
        index_from(entries, name, j + 1)
    }
}

/// The graph of the entries: each waits for the entries of the fields in its list.
pub open spec fn entry_graph(entries: Seq<EntryName>) -> Seq<Seq<usize>> {
    Seq::new(
        entries.len(),
        |e: int|
            Seq::new(
                entries[e].after.len(),
                |p: int| index_from(entries, entries[e].after[p], 0) as usize,
            ),
    )
}

/// Every field that is waited for has an entry.
pub open spec fn all_resolved(entries: Seq<EntryName>) -> bool {
    forall|e: int, p: int|
        0 <= e < entries.len() && 0 <= p < entries[e].after.len() ==> is_entry(
            entries,
            #[trigger] entries[e].after[p],
        )
}

pub(crate) proof fn lemma_index_from(entries: Seq<EntryName>, name: MemberName, j: int)
    requires
        0 <= j <= entries.len(),
        exists|k: int| j <= k < entries.len() && (#[trigger] entries[k]).member == name,
    ensures
        j <= index_from(entries, name, j) < entries.len(),
        entries[index_from(entries, name, j)].member == name,
    decreases entries.len() - j,
{
    if entries[j].member != name {
        lemma_index_from(entries, name, j + 1);
    }
}

/// The graph of entries whose lists name entries only is closed.
pub(crate) proof fn lemma_entry_graph(entries: Seq<EntryName>)
    requires
        entries.len() <= usize::MAX,
        all_resolved(entries),
    ensures
        closed_graph(entry_graph(entries)),
{
    let g = entry_graph(entries);
    assert forall|i: int, p: int| 0 <= i < g.len() && 0 <= p < g[i].len() implies (
    #[trigger] g[i][p]) < g.len() by {
        let dep = entries[i].after[p];
        assert(is_entry(entries, dep));
        lemma_index_from(entries, dep, 0);
    }
}

/// Refuses `after` lists that name the field itself, no field, or a field that is not cleaned up.
/// The result is the first fault: at which entry, at which place of its list, and what it is.
pub fn check_entries(members: &Vec<Member>, entries: &Vec<Entry>) -> (fault: Option<
    (usize, usize, DepFault),
>)
    ensures
        match fault {
            Some((e, p, fault)) => {
                &&& e < entries@.len()
                &&& p < entries@[e as int].after@.len()
                &&& first_fault(names_of(members@), entries_of(entries@), 0, 0) == Some(
                    (e as int, p as int, fault),
                )
            },
            None => first_fault(names_of(members@), entries_of(entries@), 0, 0) is None,
        },
{
    let ghost names = names_of(members@);
    let ghost all = entries_of(entries@);
    let mut e: usize = 0;
    while e < entries.len()
        invariant
            e <= entries@.len(),
            names == names_of(members@),
            all == entries_of(entries@),
            first_fault(names, all, e as int, 0) == first_fault(names, all, 0, 0),
        decreases entries@.len() - e,
    {
        let mut p: usize = 0;
        while p < entries[e].after.len()
            invariant
                e < entries@.len(),
                p <= entries@[e as int].after@.len(),
                names == names_of(members@),
                all == entries_of(entries@),
                first_fault(names, all, e as int, p as int) == first_fault(names, all, 0, 0),
            decreases entries@[e as int].after@.len() - p,
        {
            let dep = &entries[e].after[p];
            assert(all[e as int] == entries@[e as int]@);
            assert(all[e as int].after[p as int] == dep@);
            if dep.same(&entries[e].member) {
                return Some((e, p, DepFault::Itself));
            }
            if !contains(members, dep) {
                return Some((e, p, DepFault::Missing));
            }
            match position(entries, dep) {
                None => {
                    return Some((e, p, DepFault::Skipped));
                },
                Some(j) => {
                    assert(all[j as int] == entries@[j as int]@);
                    assert(is_entry(all, dep@));
                },
            }
            p += 1;
        }
        assert(all[e as int] == entries@[e as int]@);
        e += 1;
    }
    None
}

/// Groups entries into layers.
///
/// Layer 0 holds the entries that wait for nothing; layer N holds entries whose fields to wait for
/// all stand in layers before N. Entries that do not wait for each other can share a layer, and are
/// then cleaned up at the same time. An entry is given by its place. If entries wait for each other
/// in a circle, the result is the first that can never start.
pub fn topo_layers(entries: &Vec<Entry>) -> (result: Result<Vec<Vec<usize>>, usize>)
    requires
        all_resolved(entries_of(entries@)),
    ensures
        match result {
            Ok(layers) => {
                &&& all_settle(entry_graph(entries_of(entries@)))
                &&& lists_of(layers@) == layers_of(entry_graph(entries_of(entries@)))
            },
            Err(stuck) => {
                &&& stuck < entries@.len()
                &&& !settles(entry_graph(entries_of(entries@)), stuck as int)
                &&& forall|i: int|
                    0 <= i < stuck ==> #[trigger] settles(entry_graph(entries_of(entries@)), i)
            },
        },
{
    let ghost all = entries_of(entries@);
    let mut deps: Vec<Vec<usize>> = Vec::new();
    let mut e: usize = 0;
    while e < entries.len()
        invariant
            e <= entries@.len(),
            all == entries_of(entries@),
            all_resolved(all),
            deps@.len() == e,
            forall|i: int| 0 <= i < e ==> (#[trigger] deps@[i])@ == entry_graph(all)[i],
        decreases entries@.len() - e,
    {
        let mut list: Vec<usize> = Vec::new();
        let mut p: usize = 0;
        while p < entries[e].after.len()
            invariant
                e < entries@.len(),
                p <= entries@[e as int].after@.len(),
                all == entries_of(entries@),
                all_resolved(all),
                list@.len() == p,
                forall|q: int| 0 <= q < p ==> #[trigger] list@[q] == entry_graph(all)[e as int][q],
            decreases entries@[e as int].after@.len() - p,
        {
            let dep = &entries[e].after[p];
            assert(all[e as int] == entries@[e as int]@);
            assert(all[e as int].after[p as int] == dep@);
            assert(is_entry(all, all[e as int].after[p as int]));
            match position(entries, dep) {
                Some(j) => {
                    list.push(j);
                },
                None => {
                    vstd::pervasive::unreached::<()>();
                },
            }
            p += 1;
        }
        assert(all[e as int] == entries@[e as int]@);
        assert(list@ =~= entry_graph(all)[e as int]);
        deps.push(list);
        e += 1;
    }
    proof {
        assert(lists_of(deps@) =~= entry_graph(all));
        lemma_entry_graph(all);
    }
    kahn_layers(&deps)
}

/// Entries without a fault name entries only.
pub(crate) proof fn lemma_no_fault(
    members: Seq<MemberName>,
    entries: Seq<EntryName>,
    e: int,
    p: int,
)
    requires
        0 <= e <= entries.len(),
        0 <= p,
        first_fault(members, entries, e, p) is None,
    ensures
        forall|f: int, q: int|
            e <= f < entries.len() && (f == e ==> p <= q) && 0 <= q < entries[f].after.len()
                ==> is_entry(entries, #[trigger] entries[f].after[q]),
    decreases entries.len() - e, entries[e].after.len() - p,
{
    if e < entries.len() {
        if p >= entries[e].after.len() {
            lemma_no_fault(members, entries, e + 1, 0);
        } else {
            lemma_no_fault(members, entries, e, p + 1);
        }
    }
}

/// How the field at place `i` is referred to.
pub open spec fn member_at(fields: Seq<FieldSyntax>, i: int) -> MemberName {
    match fields[i].name {
        Some(name) => MemberName::Named(name),
        None => MemberName::Unnamed(i as u32),
    }
}

/// How the fields are referred to.
pub open spec fn members_at(fields: Seq<FieldSyntax>) -> Seq<MemberName> {
    Seq::new(fields.len(), |i: int| member_at(fields, i))
}

/// A field that is cleaned up: its place among all fields, and its entry.
pub struct Cleaned {
    pub field: int,
    pub entry: EntryName,
}

/// Those of the first `n` fields that are cleaned up, or what is wrong with the first bad one.
pub open spec fn collected(fields: Seq<FieldSyntax>, n: nat) -> Result<
    Seq<Cleaned>,
    Refusal,
>
    decreases n,
{
    if n == 0 {
        Ok(Seq::empty())
    } else {
        match collected(fields, (n - 1) as nat) {
            Err(refusal) => Err(refusal),
            Ok(cleaned) => match request_of(fields[n - 1]) {
                Err(refusal) => Err(refusal),
                Ok(request) => if request.skip {
                    Ok(cleaned)
                } else {
                    Ok(
                        cleaned.push(
                            Cleaned {
                                field: n - 1,
                                entry: EntryName {
                                    member: member_at(fields, n - 1),
                                    after: members_of(request.after),
                                },
                            },
                        ),
                    )
                },
            },
        }
    }
}

/// The entries of fields that are cleaned up.
pub open spec fn entries_in(cleaned: Seq<Cleaned>) -> Seq<EntryName> {
    Seq::new(cleaned.len(), |i: int| cleaned[i].entry)
}

/// The layers in which fields are cleaned up.
pub open spec fn layers_in(cleaned: Seq<Cleaned>) -> Seq<Seq<usize>> {
    layers_of(entry_graph(entries_in(cleaned)))
}

/// The first node from `i` on that can never start.
pub open spec fn first_stuck(g: Seq<Seq<usize>>, i: int) -> int
    decreases g.len() - i,
{
    if i < 0 || i >= g.len() || !settles(g, i) {
        i
    } else {
        first_stuck(g, i + 1)
    }
}

/// What stands for a field in the source: its name, or the whole of a field of a tuple.
pub open spec fn shown_by(fields: Seq<FieldSyntax>, i: int) -> Seq<Token> {
    match fields[i].name {
        Some(name) => seq![Token::Ident(name)],
        None => fields[i].tokens,
    }
}

/// The fields that are cleaned up, or why the fields are refused: for what the first bad attribute
/// says, else for the first entry of an `after` list that cannot be met, else for a circle.
pub open spec fn planned(fields: Seq<FieldSyntax>, owner: Owner) -> Result<
    Seq<Cleaned>,
    Refusal,
> {
    match collected(fields, fields.len()) {
        Err(refusal) => Err(refusal),
        Ok(cleaned) => {
            let entries = entries_in(cleaned);
            match first_fault(members_at(fields), entries, 0, 0) {
                Some((e, p, fault)) => Err(
                    Refusal::Rule(
                        dep_message(fault, entries[e].after[p].text(), owner),
                        At::Whole(request_of(fields[cleaned[e].field])->Ok_0.after[p].at),
                    ),
                ),
                None => if all_settle(entry_graph(entries)) {
                    Ok(cleaned)
                } else {
                    let stuck = first_stuck(entry_graph(entries), 0);
                    Err(
                        Refusal::Rule(
                            cycle_message(),
                            At::Whole(shown_by(fields, cleaned[stuck].field)),
                        ),
                    )
                },
            }
        },
    }
}

/// The fields that are cleaned up, and where their `after` lists are written.
struct Collected {
    entries: Vec<Entry>,
    places: Vec<usize>,
    deps: Vec<Vec<Dep>>,
}

/// What entries and their places stand for together.
pub open spec fn cleaned_by(entries: Seq<Entry>, places: Seq<usize>) -> Seq<Cleaned> {
    Seq::new(entries.len(), |i: int| Cleaned { field: places[i] as int, entry: entries[i]@ })
}

proof fn lemma_first_bad_field(fields: Seq<FieldSyntax>, n: nat, m: nat)
    requires
        n <= m,
        collected(fields, n) is Err,
    ensures
        collected(fields, m) == collected(fields, n),
    decreases m,
{
    if n < m {
        lemma_first_bad_field(fields, n, (m - 1) as nat);
    }
}

/// How the field at place `i` is referred to.
fn member_of_field(field: &Field, i: usize) -> (member: Member)
    ensures
        member@ == match field.syntax().name {
            Some(name) => MemberName::Named(name),
            None => MemberName::Unnamed(i as u32),
        },
{
    match &field.name {
        Some(name) => Member::Named(name.clone()),
        None => Member::Unnamed(i as u32),
    }
}

/// How fields are referred to.
fn members_of_fields(fields: &Vec<Field>) -> (members: Vec<Member>)
    ensures
        names_of(members@) == members_at(syntax_of(fields@)),
{
    let mut members: Vec<Member> = Vec::new();
    let mut i: usize = 0;
    while i < fields.len()
        invariant
            i <= fields@.len(),
            members@.len() == i,
            forall|j: int|
                0 <= j < i ==> (#[trigger] members@[j])@ == member_at(syntax_of(fields@), j),
        decreases fields@.len() - i,
    {
        members.push(member_of_field(&fields[i], i));
        assert(syntax_of(fields@)[i as int] == fields@[i as int].syntax());
        i += 1;
    }
    assert(names_of(members@) =~= members_at(syntax_of(fields@)));
    members
}

/// The members of a list, without where they are written.
fn members_of_deps(deps: &Vec<Dep>) -> (members: Vec<Member>)
    ensures
        names_of(members@) == members_of(waited_for(deps@)),
        members@.len() == deps@.len(),
{
    let mut members: Vec<Member> = Vec::new();
    let mut i: usize = 0;
    while i < deps.len()
        invariant
            i <= deps@.len(),
            members@.len() == i,
            forall|j: int| 0 <= j < i ==> (#[trigger] members@[j])@ == deps@[j].member@,
        decreases deps@.len() - i,
    {
        members.push(deps[i].member.copy());
        i += 1;
    }
    assert(names_of(members@) =~= members_of(waited_for(deps@)));
    members
}

/// Reads the attributes of every field.
fn collect(fields: &Vec<Field>) -> (result: Result<Collected, DeriveError>)
    ensures
        match result {
            Ok(found) => {
                &&& collected(syntax_of(fields@), fields@.len()) == Ok::<_, Refusal>(
                    cleaned_by(found.entries@, found.places@),
                )
                &&& found.places@.len() == found.entries@.len()
                &&& found.deps@.len() == found.entries@.len()
                &&& forall|e: int|
                    0 <= e < found.places@.len() ==> (#[trigger] found.places@[e]) < fields@.len()
                &&& forall|e: int|
                    0 <= e < found.deps@.len() ==> (#[trigger] found.deps@[e])@.len()
                        == found.entries@[e].after@.len() && request_of(
                        syntax_of(fields@)[found.places@[e] as int],
                    )->Ok_0.after == waited_for(found.deps@[e]@)
            },
            Err(error) => collected(syntax_of(fields@), fields@.len()) == Err::<Seq<Cleaned>, _>(
                error.refusal(),
            ),
        },
{
    let ghost all = syntax_of(fields@);
    let mut found = Collected { entries: Vec::new(), places: Vec::new(), deps: Vec::new() };
    let mut i: usize = 0;
    assert(cleaned_by(found.entries@, found.places@) =~= Seq::empty());
    while i < fields.len()
        invariant
            i <= fields@.len(),
            all == syntax_of(fields@),
            collected(all, i as nat) == Ok::<_, Refusal>(
                cleaned_by(found.entries@, found.places@),
            ),
            found.places@.len() == found.entries@.len(),
            found.deps@.len() == found.entries@.len(),
            forall|e: int| 0 <= e < found.places@.len() ==> (#[trigger] found.places@[e]) < i,
            forall|e: int|
                0 <= e < found.deps@.len() ==> (#[trigger] found.deps@[e])@.len()
                    == found.entries@[e].after@.len() && request_of(
                    all[found.places@[e] as int],
                )->Ok_0.after == waited_for(found.deps@[e]@),
        decreases fields@.len() - i,
    {
        assert(all[i as int] == fields@[i as int].syntax());
        let directives = match read_field(&fields[i]) {
            Ok(directives) => directives,
            Err(error) => {
                proof {
                    lemma_first_bad_field(all, (i + 1) as nat, fields@.len());
                }
                return Err(error);
            },
        };
        if !directives.skip {
            let ghost before = cleaned_by(found.entries@, found.places@);
            let member = member_of_field(&fields[i], i);
            let after = members_of_deps(&directives.after);
            let entry = Entry { member, after };
            let ghost name = entry@;
            found.entries.push(entry);
            found.places.push(i);
            found.deps.push(directives.after);
            assert(cleaned_by(found.entries@, found.places@) =~= before.push(
                Cleaned { field: i as int, entry: name },
            ));
        }
        i += 1;
    }
    Ok(found)
}

/// The token that refers to a field.
pub open spec fn member_token(member: MemberName) -> Token {
    match member {
        MemberName::Named(name) => Token::Ident(name),
        MemberName::Unnamed(index) => Token::Literal(decimal(index as nat)),
    }
}

/// The tokens of the names of fields are what they say.
pub open spec fn idents_match(fields: Seq<Field>) -> bool {
    forall|i: int|
        0 <= i < fields.len() ==> ((#[trigger] fields[i]).name matches Some(name) ==> tokens_of(
            fields[i].ident,
        ) == seq![Token::Ident(name@)])
}

/// The token that refers to the field at place `i`.
pub(crate) fn member_tokens(fields: &Vec<Field>, i: usize) -> (stream: TokenStream)
    requires
        i < fields@.len(),
        idents_match(fields@),
    ensures
        tokens_of(stream) == seq![member_token(member_at(syntax_of(fields@), i as int))],
{
    assert(syntax_of(fields@)[i as int] == fields@[i as int].syntax());
    match &fields[i].name {
        Some(_) => copy_of(&fields[i].ident),
        None => number(i as u32),
    }
}

/// The fields that are cleaned up, by their entries and places, and the layers of the entries.
pub struct Plan {
    pub entries: Vec<Entry>,
    pub places: Vec<usize>,
    pub layers: Vec<Vec<usize>>,
}

impl Plan {
    /// What the entries and places stand for.
    pub open spec fn cleaned(self) -> Seq<Cleaned> {
        cleaned_by(self.entries@, self.places@)
    }

    /// The plan is one for these fields: every entry belongs to the field at its place, and the
    /// layers are those of the entries.
    pub open spec fn fits(self, fields: Seq<FieldSyntax>) -> bool {
        &&& self.places@.len() == self.entries@.len()
        &&& lists_of(self.layers@) == layers_in(self.cleaned())
        &&& forall|e: int|
            0 <= e < self.places@.len() ==> (#[trigger] self.places@[e]) < fields.len()
                && self.entries@[e]@.member == member_at(fields, self.places@[e] as int)
        &&& forall|k: int, j: int|
            0 <= k < self.layers@.len() && 0 <= j < self.layers@[k]@.len() ==> (
            #[trigger] self.layers@[k]@[j]) < self.entries@.len()
    }
}

/// Every entry belongs to the field at its place.
pub(crate) proof fn lemma_collected(fields: Seq<FieldSyntax>, n: nat)
    requires
        n <= fields.len(),
        collected(fields, n) is Ok,
    ensures
        collected(fields, n)->Ok_0.len() <= n,
        forall|e: int|
            0 <= e < collected(fields, n)->Ok_0.len() ==> {
                let cleaned = #[trigger] collected(fields, n)->Ok_0[e];
                0 <= cleaned.field < n && cleaned.entry.member == member_at(fields, cleaned.field)
            },
    decreases n,
{
    if n > 0 {
        lemma_collected(fields, (n - 1) as nat);
    }
}

pub(crate) proof fn lemma_first_stuck(g: Seq<Seq<usize>>, stuck: int, i: int)
    requires
        0 <= i <= stuck < g.len(),
        !settles(g, stuck),
        forall|j: int| 0 <= j < stuck ==> #[trigger] settles(g, j),
    ensures
        first_stuck(g, i) == stuck,
    decreases stuck - i,
{
    if i < stuck {
        lemma_first_stuck(g, stuck, i + 1);
    }
}

/// What stands for a field in the source.
fn shown(fields: &Vec<Field>, i: usize) -> (stream: TokenStream)
    requires
        i < fields@.len(),
        idents_match(fields@),
    ensures
        tokens_of(stream) == shown_by(syntax_of(fields@), i as int),
{
    assert(syntax_of(fields@)[i as int] == fields@[i as int].syntax());
    match &fields[i].name {
        Some(_) => copy_of(&fields[i].ident),
        None => copy_of(&fields[i].tokens),
    }
}

/// Decides which fields are cleaned up, and in which order.
pub fn plan_fields(fields: &Vec<Field>, owner: Owner) -> (result: Result<Plan, DeriveError>)
    requires
        idents_match(fields@),
    ensures
        match result {
            Ok(plan) => {
                &&& planned(syntax_of(fields@), owner) == Ok::<_, Refusal>(plan.cleaned())
                &&& plan.fits(syntax_of(fields@))
            },
            Err(error) => planned(syntax_of(fields@), owner) == Err::<Seq<Cleaned>, _>(
                error.refusal(),
            ),
        },
{
    let found = match collect(fields) {
        Ok(found) => found,
        Err(error) => {
            return Err(error);
        },
    };
    let members = members_of_fields(fields);
    let Collected { entries, places, deps } = found;
    let ghost cleaned = cleaned_by(entries@, places@);
    assert(entries_in(cleaned) =~= entries_of(entries@));
    assert(entries@.len() == entries.len());
    match check_entries(&members, &entries) {
        Some((e, p, fault)) => {
            assert(deps@[e as int]@.len() == entries@[e as int].after@.len());
            assert(entries_of(entries@)[e as int].after[p as int]
                == entries@[e as int].after@[p as int]@);
            let dep = entries[e].after[p].copy();
            assert(waited_for(deps@[e as int]@)[p as int].at == tokens_of(
                deps@[e as int]@[p as int].at,
            ));
            return Err(
                DeriveError::Rule(
                    Fault::Dep(fault, dep, owner),
                    Place::Whole(copy_of(&deps[e][p].at)),
                ),
            );
        },
        None => {},
    }
    proof {
        lemma_no_fault(members_at(syntax_of(fields@)), entries_of(entries@), 0, 0);
        lemma_entry_graph(entries_of(entries@));
    }
    match topo_layers(&entries) {
        Ok(layers) => {
            proof {
                let g = entry_graph(entries_of(entries@));
                assert forall|k: int, j: int|
                    0 <= k < layers@.len() && 0 <= j < layers@[k]@.len() implies (
                #[trigger] layers@[k]@[j]) < entries@.len() by {
                    assert(lists_of(layers@)[k] == layers@[k]@);
                    law_layers_ascend(g, k);
                    assert(layers_of(g)[k][j] < g.len());
                }
                let all = syntax_of(fields@);
                lemma_collected(all, all.len());
                assert forall|e: int| 0 <= e < places@.len() implies (#[trigger] places@[e])
                    < all.len() && entries@[e]@.member == member_at(all, places@[e] as int) by {
                    assert(collected(all, all.len())->Ok_0[e] == cleaned[e]);
                }
            }
            Ok(Plan { entries, places, layers })
        },
        Err(stuck) => {
            proof {
                assert(places@[stuck as int] < fields@.len());
                lemma_first_stuck(entry_graph(entries_of(entries@)), stuck as int, 0);
            }
            Err(DeriveError::Rule(Fault::Cycle, Place::Whole(shown(fields, places[stuck]))))
        },
    }
}

/// Entries stand for what they say, one for one and in order: for which field each is, and all the
/// fields that it waits for.
pub proof fn law_entries_stand_for_themselves(entries: Seq<Entry>, e: int)
    requires
        0 <= e < entries.len(),
    ensures
        entries_of(entries).len() == entries.len(),
        entries_of(entries)[e].member == entries[e].member@,
        entries_of(entries)[e].after.len() == entries[e].after@.len(),
        forall|p: int|
            0 <= p < entries[e].after@.len() ==> #[trigger] entries_of(entries)[e].after[p]
                == entries[e].after@[p]@,
{
}

/// The first entry for the field of this name.
pub open spec fn is_first_entry(entries: Seq<Entry>, name: MemberName, d: int) -> bool {
    &&& 0 <= d < entries.len()
    &&& entries[d].member@ == name
    &&& forall|j: int| 0 <= j < d ==> (#[trigger] entries[j]).member@ != name
}

proof fn lemma_first_entry(entries: Seq<Entry>, name: MemberName, d: int)
    requires
        is_first_entry(entries, name, d),
    ensures
        index_from(entries_of(entries), name, 0) == d,
{
    let all = entries_of(entries);
    assert(all[d].member == name);
    lemma_index_from(all, name, 0);
    let found = index_from(all, name, 0);
    if d < found {
        lemma_not_passed_over(all, name, 0, d);
    }
    assert(entries[found].member@ == name);
}

proof fn lemma_not_passed_over(entries: Seq<EntryName>, name: MemberName, j: int, k: int)
    requires
        0 <= j <= k < entries.len(),
        entries[k].member == name,
    ensures
        index_from(entries, name, j) <= k,
    decreases k - j,
{
    if j < k {
        lemma_not_passed_over(entries, name, j + 1, k);
    }
}

/// Grouping entries into layers gives every entry one place. An entry stands in a later layer than
/// every entry that it waits for, and in the layer right behind that of one of them, or in the first
/// where it waits for none.
pub proof fn law_topo_layers_answers(
    entries: &Vec<Entry>,
    result: Result<Vec<Vec<usize>>, usize>,
    e: int,
)
    requires
        all_resolved(entries_of(entries@)),
        call_ensures(topo_layers, (entries,), result),
        0 <= e < entries@.len(),
    ensures
        result matches Ok(layers) ==> {
            &&& exists|k: int| #[trigger] is_listed(layers@, e, k)
            &&& forall|k: int, m: int|
                #[trigger] is_listed(layers@, e, k) && #[trigger] is_listed(layers@, e, m) ==> k
                    == m
            &&& forall|p: int, d: int, k: int, m: int|
                0 <= p < entries@[e].after@.len() && #[trigger] is_first_entry(
                    entries@,
                    entries@[e].after@[p]@,
                    d,
                ) && #[trigger] is_listed(layers@, e, k) && #[trigger] is_listed(layers@, d, m)
                    ==> m < k
            &&& forall|k: int| #[trigger]
                is_listed(layers@, e, k) && k > 0 ==> exists|p: int, d: int|
                    0 <= p < entries@[e].after@.len() && #[trigger] is_first_entry(
                        entries@,
                        entries@[e].after@[p]@,
                        d,
                    ) && is_listed(layers@, d, k - 1)
        },
{
    if let Ok(layers) = result {
        let all = entries_of(entries@);
        let g = entry_graph(all);
        let lists = layers_of(g);
        assert(entries.len() == entries@.len());
        lemma_entry_graph(all);
        assert(layers@.len() == lists.len());
        assert forall|n: int, k: int| #[trigger] is_listed(layers@, n, k) == stands_in(lists, n, k) by {
            if 0 <= k < layers@.len() {
                assert(lists_of(layers@)[k] == layers@[k]@);
            }
        }
        law_every_node_once(g, e);
        let at = choose|at: int| #[trigger] stands_in(lists, e, at);
        assert(is_listed(layers@, e, at));
        assert forall|p: int, d: int, k: int, m: int|
            0 <= p < entries@[e].after@.len() && #[trigger] is_first_entry(
                entries@,
                entries@[e].after@[p]@,
                d,
            ) && #[trigger] is_listed(layers@, e, k) && #[trigger] is_listed(
                layers@,
                d,
                m,
            ) implies m < k by {
            lemma_first_entry(entries@, entries@[e].after@[p]@, d);
            assert(all[e].after[p] == entries@[e].after@[p]@);
            assert(g[e][p] == d as usize);
            law_dependency_comes_first(g, e, p, k, m);
        }
        assert forall|k: int| #[trigger] is_listed(layers@, e, k) && k > 0 implies exists|
            p: int,
            d: int,
        |
            0 <= p < entries@[e].after@.len() && #[trigger] is_first_entry(
                entries@,
                entries@[e].after@[p]@,
                d,
            ) && is_listed(layers@, d, k - 1) by {
            law_no_needless_wait(g, e, k);
            let p = choose|p: int|
                0 <= p < g[e].len() && stands_in(lists, #[trigger] g[e][p] as int, k - 1);
            let name = entries@[e].after@[p]@;
            assert(all[e].after[p] == name);
            assert(is_entry(all, name));
            lemma_index_from(all, name, 0);
            let d = index_from(all, name, 0);
            assert forall|j: int| 0 <= j < d implies (#[trigger] entries@[j]).member@ != name by {
                if entries@[j].member@ == name {
                    assert(all[j].member == name);
                    lemma_not_passed_over(all, name, 0, j);
                }
            }
            assert(is_first_entry(entries@, name, d));
            assert(is_listed(layers@, d, k - 1));
        }
    }
}

/// The `p`th field that entry `e` waits for is a field, another one, and has an entry.
pub open spec fn can_be_met(members: Seq<Member>, entries: Seq<Entry>, e: int, p: int) -> bool {
    let name = entries[e].after@[p]@;
    &&& name != entries[e].member@
    &&& exists|i: int| 0 <= i < members.len() && (#[trigger] members[i])@ == name
    &&& exists|d: int| 0 <= d < entries.len() && (#[trigger] entries[d]).member@ == name
}

proof fn lemma_can_be_met(members: Seq<Member>, entries: Seq<Entry>, e: int, p: int)
    requires
        0 <= e < entries.len(),
        0 <= p < entries[e].after@.len(),
    ensures
        dep_fault(names_of(members), entries_of(entries), e, p) is None <==> can_be_met(
            members,
            entries,
            e,
            p,
        ),
{
    let names = names_of(members);
    let all = entries_of(entries);
    let name = entries[e].after@[p]@;
    assert(all[e].after[p] == name);
    if names.contains(name) {
        let i = choose|i: int| 0 <= i < names.len() && names[i] == name;
        assert(members[i]@ == name);
    }
    if exists|i: int| 0 <= i < members.len() && (#[trigger] members[i])@ == name {
        let i = choose|i: int| 0 <= i < members.len() && (#[trigger] members[i])@ == name;
        assert(names[i] == name);
    }
    if is_entry(all, name) {
        let d = choose|d: int| 0 <= d < all.len() && (#[trigger] all[d]).member == name;
        assert(entries[d].member@ == name);
    }
    if exists|d: int| 0 <= d < entries.len() && (#[trigger] entries[d]).member@ == name {
        let d = choose|d: int| 0 <= d < entries.len() && (#[trigger] entries[d]).member@ == name;
        assert(all[d].member == name);
    }
}

proof fn lemma_fault_is_first(
    members: Seq<MemberName>,
    entries: Seq<EntryName>,
    e: int,
    p: int,
    f: int,
    q: int,
)
    requires
        0 <= e <= f < entries.len(),
        0 <= p,
        0 <= q < entries[f].after.len(),
        e == f ==> p <= q,
        match first_fault(members, entries, e, p) {
            Some((g, r, _)) => f < g || (f == g && q < r),
            None => true,
        },
    ensures
        dep_fault(members, entries, f, q) is None,
    decreases entries.len() - e, entries[e].after.len() - p,
{
    if p >= entries[e].after.len() {
        lemma_fault_is_first(members, entries, e + 1, 0, f, q);
    } else if dep_fault(members, entries, e, p) is None && !(e == f && p == q) {
        lemma_fault_is_first(members, entries, e, p + 1, f, q);
    }
}

proof fn lemma_fault_is_one(members: Seq<MemberName>, entries: Seq<EntryName>, e: int, p: int)
    requires
        0 <= e,
        0 <= p,
        first_fault(members, entries, e, p) is Some,
    ensures
        ({
            let (f, q, fault) = first_fault(members, entries, e, p)->0;
            dep_fault(members, entries, f, q) == Some(fault)
        }),
    decreases entries.len() - e, entries[e].after.len() - p,
{
    if p >= entries[e].after.len() {
        lemma_fault_is_one(members, entries, e + 1, 0);
    } else if dep_fault(members, entries, e, p) is None {
        lemma_fault_is_one(members, entries, e, p + 1);
    }
}

/// Checking `after` lists finds the first name that cannot be met, entry by entry and in the order of
/// each list, and says why: it is that of the field itself, of no field, or of one without an entry.
/// Nothing is found exactly if every name can be met.
pub proof fn law_check_entries_answers(
    members: &Vec<Member>,
    entries: &Vec<Entry>,
    fault: Option<(usize, usize, DepFault)>,
    e: int,
    p: int,
)
    requires
        call_ensures(check_entries, (members, entries), fault),
        0 <= e < entries@.len(),
        0 <= p < entries@[e].after@.len(),
    ensures
        match fault {
            None => can_be_met(members@, entries@, e, p),
            Some((f, q, found)) => {
                &&& e < f || (e == f && p < q) ==> can_be_met(members@, entries@, e, p)
                &&& e == f && p == q ==> {
                    let name = entries@[e].after@[p]@;
                    &&& !can_be_met(members@, entries@, e, p)
                    &&& found is Itself <==> name == entries@[e].member@
                    &&& found is Missing <==> name != entries@[e].member@ && !exists|i: int|
                        0 <= i < members@.len() && (#[trigger] members@[i])@ == name
                }
            },
        },
{
    let names = names_of(members@);
    let all = entries_of(entries@);
    let name = entries@[e].after@[p]@;
    lemma_can_be_met(members@, entries@, e, p);
    assert(all[e].after[p] == name);
    match fault {
        None => {
            lemma_fault_is_first(names, all, 0, 0, e, p);
        },
        Some((f, q, found)) => {
            if e < f || (e == f && p < q) {
                lemma_fault_is_first(names, all, 0, 0, e, p);
            }
            lemma_fault_is_one(names, all, 0, 0);
            if names.contains(name) {
                let i = choose|i: int| 0 <= i < names.len() && names[i] == name;
                assert(members@[i]@ == name);
            }
            if exists|i: int| 0 <= i < members@.len() && (#[trigger] members@[i])@ == name {
                let i = choose|i: int|
                    0 <= i < members@.len() && (#[trigger] members@[i])@ == name;
                assert(names[i] == name);
            }
        },
    }
}

} // verus!
