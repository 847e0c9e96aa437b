//! What the `eulogy` attribute of a field asks for.
use crate::derive::args::{is_within, place_of, scan, scan_args, stands_at, Clause, Spot};
use crate::derive::fault::{
    element_message, skip_message, At, DeriveError, Fault, Place, Refusal,
};
use crate::derive::member::{Member, MemberName};
use crate::derive::syntax::{
    elems_match, elems_of, messages_of, name_in, parse_array, parsed_array, segments_match, Attr,
    AttrArgs, AttrSyntax, Elem, ElemKind, ElemKindSyntax, ElemSyntax, Field, FieldSyntax,
};
use crate::derive::tokens::{
    append, copy_of, empty_stream, is_empty, tokens_in, tokens_of, trees_of, Delim, Kind, Token,
    Tree,
};
use proc_macro2::TokenStream;
use vstd::prelude::*;

verus! {

/// The tokens without the invisible delimiters around what a macro passed through.
pub open spec fn transparent(ts: Seq<Token>) -> Seq<Token>
    decreases ts,
{
    if ts.len() == 0 {
        Seq::empty()
    } else {
        transparent(ts.drop_last()) + match ts[ts.len() - 1] {
            Token::Group(Delim::Invisible, inner) => transparent(inner),
            token => seq![token],
        }
    }
}

/// The invisible group without tokens in which the tokens end, if they do.
pub open spec fn gap_of(ts: Seq<Token>) -> Option<Token>
    decreases ts,
{
    if ts.len() == 0 {
        None
    } else {
        match ts[ts.len() - 1] {
            Token::Group(Delim::Invisible, inner) => if inner.len() == 0 {
                Some(ts[ts.len() - 1])
            } else {
                gap_of(inner)
            },
            _ => None,
        }
    }
}

/// The invisible group without tokens in which the tokens of a stream end, if they do.
pub(crate) fn gap_in(stream: &TokenStream) -> (gap: Option<TokenStream>)
    ensures
        match gap {
            Some(group) => gap_of(tokens_of(*stream)) is Some && tokens_of(group) == seq![
                gap_of(tokens_of(*stream))->0,
            ],
            None => gap_of(tokens_of(*stream)) is None,
        },
    decreases tokens_of(*stream),
{
    let trees = trees_of(stream);
    let ghost ts = tokens_of(*stream);
    assert(tokens_in(trees@).len() == trees@.len());
    if trees.len() == 0 {
        return None;
    }
    let last: usize = trees.len() - 1;
    assert(ts[last as int] == trees@[last as int].token());
    match &trees[last].kind {
        Kind::Group(Delim::Invisible, inner) => {
            assert(decreases_to!(ts => ts[last as int]));
            assert(decreases_to!(ts[last as int] => ts[last as int]->Group_1));
            if is_empty(inner) {
                Some(copy_of(&trees[last].tokens))
            } else {
                gap_in(inner)
            }
        },
        _ => None,
    }
}

/// The tokens of a stream without invisible delimiters.
pub(crate) fn visible_trees(stream: &TokenStream) -> (result: Vec<Tree>)
    ensures
        tokens_in(result@) == transparent(tokens_of(*stream)),
        forall|i: int|
            0 <= i < result@.len() ==> tokens_of((#[trigger] result@[i]).tokens)
                == seq![result@[i].token()],
    decreases tokens_of(*stream),
{
    let trees = trees_of(stream);
    let ghost ts = tokens_of(*stream);
    let mut result: Vec<Tree> = Vec::new();
    assert(ts.take(0) =~= Seq::empty());
    for tree in it: trees
        invariant
            ts == tokens_of(*stream),
            tokens_in(it.seq()) == ts,
            forall|i: int|
                0 <= i < it.seq().len() ==> tokens_of((#[trigger] it.seq()[i]).tokens)
                    == seq![it.seq()[i].token()],
            tokens_in(result@) == transparent(ts.take(it.index())),
            forall|i: int|
                0 <= i < result@.len() ==> tokens_of((#[trigger] result@[i]).tokens)
                    == seq![result@[i].token()],
    {
        proof {
            assert(ts.take(it.index() + 1).drop_last() =~= ts.take(it.index()));
            assert(ts[it.index()] == tree.token());
        }
        let ghost before = result@;
        match &tree.kind {
            Kind::Group(Delim::Invisible, inner) => {
                assert(ts[it.index()]->Group_1 == tokens_of(*inner));
                assert(decreases_to!(ts => ts[it.index()]));
                assert(decreases_to!(ts[it.index()] => ts[it.index()]->Group_1));
                let mut rest = visible_trees(inner);
                let ghost more = rest@;
                result.append(&mut rest);
                assert(tokens_in(result@) =~= tokens_in(before) + tokens_in(more));
            },
            _ => {
                result.push(tree);
                assert(tokens_in(result@) =~= tokens_in(before).push(tree.token()));
            },
        }
    }
    assert(ts.take(ts.len() as int) =~= ts);
    result
}

/// A field that another one waits for, and where that is written.
pub struct Dep {
    pub member: Member,
    pub at: TokenStream,
}

/// What a [`Dep`] stands for.
pub struct DepName {
    pub member: MemberName,
    pub at: Seq<Token>,
}

/// The fields that are waited for.
pub open spec fn waited_for(deps: Seq<Dep>) -> Seq<DepName> {
    Seq::new(deps.len(), |i: int| DepName { member: deps[i].member@, at: tokens_of(deps[i].at) })
}

/// The fields that are waited for, without where that is written.
pub open spec fn members_of(deps: Seq<DepName>) -> Seq<MemberName> {
    Seq::new(deps.len(), |i: int| deps[i].member)
}

/// The refusal of an element that is neither a name nor an index.
pub open spec fn bad_element(elem: ElemSyntax) -> Refusal {
    Refusal::Rule(element_message(), At::Whole(elem.tokens))
}

/// The field that an element of an `after` list names. A path names it by its last segment.
pub open spec fn member_in(elem: ElemSyntax) -> Result<DepName, Refusal> {
    match elem.kind {
        ElemKindSyntax::Path(names) => if names.len() > 0 {
            Ok(
                DepName {
                    member: MemberName::Named(names[names.len() - 1]),
                    at: seq![Token::Ident(names[names.len() - 1])],
                },
            )
        } else {
            Err(bad_element(elem))
        },
        ElemKindSyntax::Int(Ok(index), literal) => Ok(
            DepName { member: MemberName::Unnamed(index), at: literal },
        ),
        ElemKindSyntax::Int(Err(messages), _) => Err(Refusal::Syntax(messages)),
        ElemKindSyntax::Other => Err(bad_element(elem)),
    }
}

/// The fields that an `after` list names, or what is wrong with its first bad element.
pub open spec fn members_in(elems: Seq<ElemSyntax>) -> Result<Seq<DepName>, Refusal>
    decreases elems.len(),
{
    if elems.len() == 0 {
        Ok(Seq::empty())
    } else {
        match members_in(elems.drop_last()) {
            Err(refusal) => Err(refusal),
            Ok(deps) => match member_in(elems.last()) {
                Err(refusal) => Err(refusal),
                Ok(dep) => Ok(deps.push(dep)),
            },
        }
    }
}

/// The name that a single token is.
fn name_of(ident: &TokenStream) -> (name: String)
    requires
        tokens_of(*ident) == seq![Token::Ident(name_in(tokens_of(*ident)))],
    ensures
        name@ == name_in(tokens_of(*ident)),
{
    let trees = trees_of(ident);
    assert(tokens_in(trees@).len() == trees@.len());
    assert(trees@[0].token() == tokens_of(*ident)[0]);
    match &trees[0].kind {
        Kind::Ident(name) => name.clone(),
        _ => vstd::pervasive::unreached(),
    }
}

/// The field that an element of an `after` list names.
pub fn member_of(elem: Elem) -> (result: Result<Dep, DeriveError>)
    requires
        elem.kind.matches_itself(),
    ensures
        match result {
            Ok(dep) => member_in(elem.syntax()) == Ok::<_, Refusal>(
                (DepName { member: dep.member@, at: tokens_of(dep.at) }),
            ),
            Err(error) => member_in(elem.syntax()) == Err::<DepName, _>(error.refusal()),
        },
{
    match elem.kind {
        ElemKind::Path(mut segments) => match segments.pop() {
            Some(last) => {
                proof {
                    let all = elem.kind->Path_0@;
                    assert(last == all[all.len() - 1]);
                    assert(segments_match(all));
                }
                Ok(Dep { member: Member::Named(name_of(&last)), at: last })
            },
            None => Err(DeriveError::Rule(Fault::Element, Place::Whole(elem.tokens))),
        },
        ElemKind::Int(Ok(index), literal) => Ok(
            Dep { member: Member::Unnamed(index), at: literal },
        ),
        ElemKind::Int(Err(error), _) => Err(DeriveError::Syntax(error)),
        ElemKind::Other => Err(DeriveError::Rule(Fault::Element, Place::Whole(elem.tokens))),
    }
}

/// The fields that an `after` list names.
pub fn read_members(elems: Vec<Elem>) -> (result: Result<Vec<Dep>, DeriveError>)
    requires
        elems_match(elems@),
    ensures
        match result {
            Ok(deps) => members_in(elems_of(elems@)) == Ok::<_, Refusal>(waited_for(deps@)),
            Err(error) => members_in(elems_of(elems@)) == Err::<Seq<DepName>, _>(error.refusal()),
        },
{
    let ghost all = elems_of(elems@);
    let mut deps: Vec<Dep> = Vec::new();
    assert(all.take(0) =~= Seq::empty());
    assert(waited_for(deps@) =~= Seq::empty());
    for elem in it: elems
        invariant
            all == elems_of(elems@),
            elems_of(it.seq()) == all,
            elems_match(it.seq()),
            members_in(all.take(it.index())) == Ok::<_, Refusal>(waited_for(deps@)),
    {
        let ghost n = it.index();
        proof {
            assert(all.take(n + 1).drop_last() =~= all.take(n));
            assert(all.take(n + 1).last() == all[n]);
            assert(all[n] == elem.syntax());
            assert(it.seq()[n].kind.matches_itself());
        }
        let ghost before = deps@;
        match member_of(elem) {
            Ok(dep) => {
                deps.push(dep);
                assert(waited_for(deps@) =~= waited_for(before).push(
                    DepName { member: dep.member@, at: tokens_of(dep.at) },
                ));
            },
            Err(error) => {
                proof {
                    lemma_first_bad(all, n);
                }
                return Err(error);
            },
        }
    }
    assert(all.take(all.len() as int) =~= all);
    Ok(deps)
}

/// What is wrong with a list is what is wrong with its first bad element.
proof fn lemma_first_bad(elems: Seq<ElemSyntax>, n: int)
    requires
        0 <= n < elems.len(),
        members_in(elems.take(n + 1)) is Err,
    ensures
        members_in(elems) == members_in(elems.take(n + 1)),
    decreases elems.len(),
{
    if n == elems.len() - 1 {
        assert(elems.take(n + 1) =~= elems);
    } else {
        assert(elems.drop_last().take(n + 1) =~= elems.take(n + 1));
        lemma_first_bad(elems.drop_last(), n);
    }
}

/// What an attribute asks for.
pub struct Request {
    /// The field is not to be cleaned up.
    pub skip: bool,
    /// There is an `after` list.
    pub ordered: bool,
    /// The fields to wait for.
    pub after: Seq<DepName>,
}

/// What has been read of the arguments of an attribute.
pub struct Reading {
    pub request: Request,
    /// The first complaint about a token that is left over within an element. It waits until all
    /// arguments have been read.
    pub leftover: Option<Seq<Seq<char>>>,
}

/// What a field without an attribute asks for.
pub open spec fn plain_request() -> Request {
    Request { skip: false, ordered: false, after: Seq::empty() }
}

/// What one more argument adds.
pub open spec fn with_argument(ts: Seq<Token>, clause: Clause, reading: Reading) -> Result<
    Reading,
    Refusal,
> {
    let request = reading.request;
    match clause {
        Clause::Skip(_) => Ok(Reading { request: Request { skip: true, ..request }, ..reading }),
        Clause::After(at) => match parsed_array(seq![ts[at as int]]) {
            Err(messages) => Err(Refusal::Syntax(messages)),
            Ok(array) => match members_in(array.elems) {
                Err(refusal) => Err(refusal),
                Ok(deps) => Ok(
                    Reading {
                        request: Request { ordered: true, after: request.after + deps, ..request },
                        leftover: if reading.leftover is Some {
                            reading.leftover
                        } else {
                            array.leftover
                        },
                    },
                ),
            },
        },
    }
}

/// What arguments ask for together, or what is wrong with the first bad one.
pub open spec fn requested(ts: Seq<Token>, clauses: Seq<Clause>) -> Result<Reading, Refusal>
    decreases clauses.len(),
{
    if clauses.len() == 0 {
        Ok(Reading { request: plain_request(), leftover: None })
    } else {
        match requested(ts, clauses.drop_last()) {
            Err(refusal) => Err(refusal),
            Ok(reading) => with_argument(ts, clauses.last(), reading),
        }
    }
}

/// Where a fault is shown: at the whole of a key, at the start of a token, at the gap behind the
/// last token, or at the closing delimiter.
pub open spec fn at_of(ts: Seq<Token>, gap: Option<Token>, spot: Spot) -> At {
    match spot {
        Spot::Key(from, to) => At::Whole(ts.subrange(from as int, to as int)),
        Spot::Token(at) => if at < ts.len() {
            At::Start(seq![ts[at as int]])
        } else {
            match gap {
                Some(group) => At::Start(seq![group]),
                None => At::End,
            }
        },
    }
}

/// What the arguments of an attribute ask for, or what is wrong first in the order in which they
/// are written. A token that is left over within an element counts last.
pub open spec fn request_in(args: Seq<Token>) -> Result<Request, Refusal> {
    let ts = transparent(args);
    let found = scan(ts, gap_of(args) is Some);
    match requested(ts, found.clauses) {
        Err(refusal) => Err(refusal),
        Ok(reading) => match (found.fault, reading.leftover) {
            (Some((spot, fault)), _) => Err(
                Refusal::Rule(fault.message(), at_of(ts, gap_of(args), spot)),
            ),
            (None, Some(messages)) => Err(Refusal::Syntax(messages)),
            (None, None) => Ok(reading.request),
        },
    }
}

proof fn lemma_first_refusal(ts: Seq<Token>, clauses: Seq<Clause>, n: int)
    requires
        0 <= n < clauses.len(),
        requested(ts, clauses.take(n + 1)) is Err,
    ensures
        requested(ts, clauses) == requested(ts, clauses.take(n + 1)),
    decreases clauses.len(),
{
    if n == clauses.len() - 1 {
        assert(clauses.take(n + 1) =~= clauses);
    } else {
        assert(clauses.drop_last().take(n + 1) =~= clauses.take(n + 1));
        lemma_first_refusal(ts, clauses.drop_last(), n);
    }
}

/// What the `eulogy` attribute of a field asks for.
pub struct Directives {
    pub skip: bool,
    /// Where `skip` is written.
    pub skip_at: TokenStream,
    pub ordered: bool,
    pub after: Vec<Dep>,
}

impl Directives {
    /// What the directives stand for.
    pub open spec fn request(self) -> Request {
        Request { skip: self.skip, ordered: self.ordered, after: waited_for(self.after@) }
    }

    /// Where `skip` is written, the word stands.
    pub open spec fn is_placed(self) -> bool {
        self.skip ==> tokens_of(self.skip_at) == seq![Token::Ident("skip"@)]
    }
}

/// What a field without an attribute asks for.
fn no_directives() -> (directives: Directives)
    ensures
        directives.request() == plain_request(),
        directives.is_placed(),
{
    let directives = Directives {
        skip: false,
        skip_at: empty_stream(),
        ordered: false,
        after: Vec::new(),
    };
    assert(directives.request().after =~= plain_request().after);
    directives
}

/// The tokens from one place up to another.
fn tokens_between(trees: &Vec<Tree>, from: usize, to: usize) -> (stream: TokenStream)
    requires
        from <= to <= trees@.len(),
        forall|i: int|
            0 <= i < trees@.len() ==> tokens_of((#[trigger] trees@[i]).tokens)
                == seq![trees@[i].token()],
    ensures
        tokens_of(stream) == tokens_in(trees@).subrange(from as int, to as int),
{
    let ghost ts = tokens_in(trees@);
    let mut stream = empty_stream();
    let mut i: usize = from;
    while i < to
        invariant
            from <= i <= to <= trees@.len(),
            ts == tokens_in(trees@),
            forall|i: int|
                0 <= i < trees@.len() ==> tokens_of((#[trigger] trees@[i]).tokens)
                    == seq![trees@[i].token()],
            tokens_of(stream) == ts.subrange(from as int, i as int),
        decreases to - i,
    {
        append(&mut stream, &trees[i].tokens);
        assert(ts.subrange(from as int, i + 1) =~= ts.subrange(from as int, i as int)
            + seq![ts[i as int]]);
        i += 1;
    }
    stream
}

/// Where a fault is shown.
fn place_for(trees: &Vec<Tree>, gap: Option<TokenStream>, args: &AttrArgs, spot: Spot) -> (place:
    Place)
    requires
        is_within(spot, trees@.len()),
        forall|i: int|
            0 <= i < trees@.len() ==> tokens_of((#[trigger] trees@[i]).tokens)
                == seq![trees@[i].token()],
        match gap {
            Some(group) => gap_of(tokens_of(args.tokens)) is Some && tokens_of(group) == seq![
                gap_of(tokens_of(args.tokens))->0,
            ],
            None => gap_of(tokens_of(args.tokens)) is None,
        },
    ensures
        place.at() == at_of(tokens_in(trees@), gap_of(tokens_of(args.tokens)), spot),
{
    match spot {
        Spot::Key(from, to) => Place::Whole(tokens_between(trees, from, to)),
        Spot::Token(at) => if at < trees.len() {
            Place::Start(copy_of(&trees[at].tokens))
        } else {
            match gap {
                Some(group) => Place::Start(group),
                None => Place::End(args.close),
            }
        },
    }
}

/// The messages of a complaint.
pub open spec fn complaint_of(leftover: Option<syn::Error>) -> Option<Seq<Seq<char>>> {
    match leftover {
        Some(error) => Some(messages_of(error)),
        None => None,
    }
}

/// What the arguments of an attribute ask for.
pub fn read_args(args: &AttrArgs) -> (result: Result<Directives, DeriveError>)
    ensures
        match result {
            Ok(directives) => {
                &&& request_in(tokens_of(args.tokens)) == Ok::<_, Refusal>(directives.request())
                &&& directives.is_placed()
            },
            Err(error) => request_in(tokens_of(args.tokens)) == Err::<Request, _>(
                error.refusal(),
            ),
        },
{
    let trees = visible_trees(&args.tokens);
    let gap = gap_in(&args.tokens);
    let found = scan_args(&trees, gap.is_some());
    let ghost ts = tokens_in(trees@);
    let ghost clauses = found.clauses@;
    let mut directives = no_directives();
    let mut leftover: Option<syn::Error> = None;
    let mut c: usize = 0;
    assert(clauses.take(0) =~= Seq::empty());
    while c < found.clauses.len()
        invariant
            c <= found.clauses@.len(),
            clauses == found.clauses@,
            ts == tokens_in(trees@),
            ts == transparent(tokens_of(args.tokens)),
            found.scan() == scan(ts, gap_of(tokens_of(args.tokens)) is Some),
            forall|i: int|
                0 <= i < trees@.len() ==> tokens_of((#[trigger] trees@[i]).tokens)
                    == seq![trees@[i].token()],
            forall|i: int|
                0 <= i < clauses.len() ==> place_of(#[trigger] clauses[i]) < trees@.len()
                    && stands_at(ts, clauses[i]),
            directives.is_placed(),
            requested(ts, clauses.take(c as int)) == Ok::<_, Refusal>(
                (Reading { request: directives.request(), leftover: complaint_of(leftover) }),
            ),
        decreases found.clauses@.len() - c,
    {
        let clause = found.clauses[c];
        proof {
            assert(place_of(clauses[c as int]) < trees@.len());
            assert(clauses.take(c + 1).drop_last() =~= clauses.take(c as int));
        }
        match clause {
            Clause::Skip(at) => {
                directives.skip = true;
                directives.skip_at = copy_of(&trees[at].tokens);
                assert(trees@[at as int].token() == ts[at as int]);
            },
            Clause::After(at) => {
                let array = match parse_array(copy_of(&trees[at].tokens)) {
                    Ok(array) => array,
                    Err(error) => {
                        proof {
                            lemma_first_refusal(ts, clauses, c as int);
                        }
                        return Err(DeriveError::Syntax(error));
                    },
                };
                let mut deps = match read_members(array.elems) {
                    Ok(deps) => deps,
                    Err(error) => {
                        proof {
                            lemma_first_refusal(ts, clauses, c as int);
                        }
                        return Err(error);
                    },
                };
                let ghost before = directives.request();
                let ghost more = waited_for(deps@);
                directives.ordered = true;
                directives.after.append(&mut deps);
                if leftover.is_none() {
                    leftover = array.leftover;
                }
                assert(directives.request().after =~= before.after + more);
            },
        }
        c += 1;
    }
    assert(clauses.take(c as int) =~= clauses);
    match (found.fault, leftover) {
        (Some((spot, fault)), _) => Err(
            DeriveError::Rule(Fault::Arg(fault), place_for(&trees, gap, args, spot)),
        ),
        (None, Some(error)) => Err(DeriveError::Syntax(error)),
        (None, None) => Ok(directives),
    }
}

/// The attribute is the one that is read.
pub open spec fn is_ours(attr: AttrSyntax) -> bool {
    attr.path == Some("eulogy"@)
}

/// What the attributes from `i` on ask for: the first `eulogy` attribute counts, and one without
/// arguments asks for nothing.
pub open spec fn request_from(attrs: Seq<AttrSyntax>, i: int) -> Result<Request, Refusal>
    decreases attrs.len() - i,
{
    if i >= attrs.len() {
        Ok(plain_request())
    } else if is_ours(attrs[i]) {
        match attrs[i].args {
            Some(args) => request_in(args),
            None => Ok(plain_request()),
        }
    } else {
        request_from(attrs, i + 1)
    }
}

/// What a field asks for. `skip` together with `after` is refused, at the word `skip`.
pub open spec fn request_of(field: FieldSyntax) -> Result<Request, Refusal> {
    match request_from(field.attrs, 0) {
        Err(refusal) => Err(refusal),
        Ok(request) => if request.skip && request.ordered {
            Err(Refusal::Rule(skip_message(), At::Whole(seq![Token::Ident("skip"@)])))
        } else {
            Ok(request)
        },
    }
}

/// Whether an attribute is the one that is read.
fn is_eulogy(attr: &Attr) -> (yes: bool)
    ensures
        yes == is_ours(attr.syntax()),
{
    match &attr.path {
        Some(path) => *path == "eulogy".to_owned(),
        None => false,
    }
}

/// What a field asks for.
pub fn read_field(field: &Field) -> (result: Result<Directives, DeriveError>)
    ensures
        match result {
            Ok(directives) => request_of(field.syntax()) == Ok::<_, Refusal>(
                directives.request(),
            ),
            Err(error) => request_of(field.syntax()) == Err::<Request, _>(error.refusal()),
        },
{
    let ghost attrs = field.syntax().attrs;
    let mut i: usize = 0;
    while i < field.attrs.len() && !is_eulogy(&field.attrs[i])
        invariant
            i <= field.attrs@.len(),
            attrs == field.syntax().attrs,
            request_from(attrs, i as int) == request_from(attrs, 0),
        decreases field.attrs@.len() - i,
    {
        i += 1;
    }
    if i == field.attrs.len() {
        return Ok(no_directives());
    }
    let directives = match &field.attrs[i].args {
        Some(args) => match read_args(args) {
            Ok(directives) => directives,
            Err(error) => {
                return Err(error);
            },
        },
        None => no_directives(),
    };
    if directives.skip && directives.ordered {
        return Err(DeriveError::Rule(Fault::SkipWithAfter, Place::Whole(directives.skip_at)));
    }
    Ok(directives)
}

/// Dependencies stand for what they say, one for one and in order: which field each names, and where
/// that is written.
pub proof fn law_dependencies_stand_for_themselves(deps: Seq<Dep>, i: int)
    requires
        0 <= i < deps.len(),
    ensures
        waited_for(deps).len() == deps.len(),
        waited_for(deps)[i].member == deps[i].member@,
        waited_for(deps)[i].at == tokens_of(deps[i].at),
        members_of(waited_for(deps)).len() == deps.len(),
        members_of(waited_for(deps))[i] == deps[i].member@,
{
}

} // verus!
