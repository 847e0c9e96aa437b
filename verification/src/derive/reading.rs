//! What a derive promises of how it reads the attributes of a field.
use crate::derive::args::{
    path_end, scan, scan_from, scan_rest, sep_at, word_at, Clause, Scan, Spot,
};
use crate::derive::directives::{
    gap_of, member_in, members_in, read_args, read_field, request_from, request_in, request_of,
    requested, transparent, DepName, Directives, Reading, Request,
};
use crate::derive::fault::{ArgFault, At, DeriveError, Refusal};
use crate::derive::member::{Member, MemberName};
use crate::derive::syntax::{
    parsed_array, ArraySyntax, Attr, AttrArgs, AttrSyntax, ElemKindSyntax, ElemSyntax, Field,
    FieldSyntax,
};
use crate::derive::tokens::{tokens_of, Delim, Token};
use vstd::prelude::*;

verus! {

/// What stands in two places one after the other is seen in both, in that order.
pub proof fn law_invisible_groups_are_seen_through(a: Seq<Token>, b: Seq<Token>)
    ensures
        transparent(a + b) == transparent(a) + transparent(b),
    decreases b.len(),
{
    if b.len() == 0 {
        assert(a + b =~= a);
        assert(transparent(a) + transparent(b) =~= transparent(a));
    } else {
        law_invisible_groups_are_seen_through(a, b.drop_last());
        assert((a + b).drop_last() =~= a + b.drop_last());
        assert((a + b).last() == b.last());
        assert(transparent(a + b) =~= transparent(a) + transparent(b));
    }
}

/// Of an invisible group what is in it is seen, and any other token is seen as it is.
pub proof fn law_visible_tokens_are_kept(token: Token)
    ensures
        match token {
            Token::Group(Delim::Invisible, inner) => transparent(seq![token]) == transparent(inner),
            _ => transparent(seq![token]) == seq![token],
        },
{
    assert(seq![token].drop_last() =~= Seq::empty());
    assert(transparent(Seq::<Token>::empty()) =~= Seq::empty());
    match token {
        Token::Group(Delim::Invisible, inner) => {
            assert(transparent(seq![token]) =~= transparent(inner));
        },
        _ => {
            assert(transparent(seq![token]) =~= seq![token]);
        },
    }
}

/// Whether there is a gap is decided by the last token alone: it is an invisible group that holds
/// nothing, or one that ends in such a gap.
pub proof fn law_gap_is_at_the_end(before: Seq<Token>, token: Token)
    ensures
        gap_of(Seq::empty()) is None,
        match token {
            Token::Group(Delim::Invisible, inner) => gap_of(before.push(token)) == if inner.len()
                == 0 {
                Some(token)
            } else {
                gap_of(inner)
            },
            _ => gap_of(before.push(token)) is None,
        },
{
    assert(before.push(token).last() == token);
}

/// The token is this character.
pub open spec fn is_char(token: Token, ch: char) -> bool {
    token matches Token::Punct(c, _) && c == ch
}

/// An argument stands at `from` and ends at `to`: the word `skip`, or the word `after`, an equals
/// sign and a list in brackets.
pub open spec fn argument_at(ts: Seq<Token>, clause: Clause, from: int, to: int) -> bool {
    match clause {
        Clause::Skip(at) => {
            &&& 0 <= from < ts.len()
            &&& at == from
            &&& to == from + 1
            &&& ts[from] == Token::Ident("skip"@)
        },
        Clause::After(at) => {
            &&& 0 <= from
            &&& to == from + 3
            &&& to <= ts.len()
            &&& at == from + 2
            &&& ts[from] == Token::Ident("after"@)
            &&& is_char(ts[from + 1], '=')
            &&& ts[from + 2] is Group
            &&& ts[from + 2]->Group_0 == Delim::Bracket
        },
    }
}

/// Argument `c` stands where it has to: the first at the start, any other behind a comma that stands
/// where the one before ends.
pub open spec fn argument_follows(
    ts: Seq<Token>,
    clauses: Seq<Clause>,
    start: int,
    spans: Seq<(int, int)>,
    c: int,
) -> bool {
    &&& argument_at(ts, clauses[c], spans[c].0, spans[c].1)
    &&& if c == 0 {
        spans[c].0 == start
    } else {
        &&& spans[c - 1].1 < ts.len()
        &&& is_char(ts[spans[c - 1].1], ',')
        &&& spans[c].0 == spans[c - 1].1 + 1
    }
}

/// The arguments stand one after the other from `start` on, with commas between them.
pub open spec fn are_arguments(
    ts: Seq<Token>,
    clauses: Seq<Clause>,
    start: int,
    spans: Seq<(int, int)>,
) -> bool {
    &&& spans.len() == clauses.len()
    &&& forall|c: int|
        0 <= c < clauses.len() ==> #[trigger] argument_follows(ts, clauses, start, spans, c)
}

/// Behind `end` nothing is left, or nothing but a comma.
pub open spec fn is_over(ts: Seq<Token>, end: int) -> bool {
    end == ts.len() || (end == ts.len() - 1 && is_char(ts[end], ','))
}

proof fn lemma_in_front(
    ts: Seq<Token>,
    clause: Clause,
    rest: Seq<Clause>,
    from: int,
    to: int,
    spans: Seq<(int, int)>,
)
    requires
        argument_at(ts, clause, from, to),
        0 <= to < ts.len(),
        is_char(ts[to], ','),
        are_arguments(ts, rest, to + 1, spans),
    ensures
        are_arguments(ts, seq![clause] + rest, from, seq![(from, to)] + spans),
{
    let clauses = seq![clause] + rest;
    let all = seq![(from, to)] + spans;
    assert forall|c: int| 0 <= c < clauses.len() implies #[trigger] argument_follows(
        ts,
        clauses,
        from,
        all,
        c,
    ) by {
        if c > 0 {
            assert(argument_follows(ts, rest, to + 1, spans, c - 1));
            assert(all[c] == spans[c - 1]);
            assert(clauses[c] == rest[c - 1]);
            if c > 1 {
                assert(all[c - 1] == spans[c - 2]);
            }
        }
    }
}

proof fn lemma_alone(ts: Seq<Token>, clause: Clause, from: int, to: int)
    requires
        argument_at(ts, clause, from, to),
    ensures
        are_arguments(ts, seq![clause], from, seq![(from, to)]),
        seq![clause] + Seq::<Clause>::empty() == seq![clause],
{
    assert(seq![clause] + Seq::<Clause>::empty() =~= seq![clause]);
    assert forall|c: int| 0 <= c < 1 implies #[trigger] argument_follows(
        ts,
        seq![clause],
        from,
        seq![(from, to)],
        c,
    ) by {}
}

proof fn lemma_clean_scan(ts: Seq<Token>, gap: bool, i: int) -> (spans: Seq<(int, int)>)
    requires
        ts.len() <= usize::MAX,
        0 <= i <= ts.len(),
        scan_from(ts, gap, i).fault is None,
    ensures
        !gap,
        scan_from(ts, gap, i).clauses.len() > 0,
        are_arguments(ts, scan_from(ts, gap, i).clauses, i, spans),
        is_over(ts, spans.last().1),
    decreases ts.len() - i,
{
    let (clause, to) = if ts[i] == Token::Ident("after"@) {
        (Clause::After((i + 2) as usize), i + 3)
    } else {
        (Clause::Skip(i as usize), i + 1)
    };
    let rest = scan_rest(ts, gap, to);
    assert(scan_from(ts, gap, i).clauses == seq![clause] + rest.clauses);
    assert(argument_at(ts, clause, i, to));
    if to >= ts.len() || to + 1 >= ts.len() {
        lemma_alone(ts, clause, i, to);
        seq![(i, to)]
    } else {
        let more = lemma_clean_scan(ts, gap, to + 1);
        lemma_in_front(ts, clause, rest.clauses, i, to, more);
        let spans = seq![(i, to)] + more;
        assert(spans.last() == more.last());
        spans
    }
}

/// Arguments that are read without a fault are what the grammar says: arguments with commas between
/// them, and perhaps one behind the last. The clauses are these arguments, all of them and in order.
pub proof fn law_arguments_that_are_read_are_written(ts: Seq<Token>, gap: bool) -> (spans: Seq<
    (int, int),
>)
    requires
        ts.len() <= usize::MAX,
        scan(ts, gap).fault is None,
    ensures
        !gap,
        are_arguments(ts, scan(ts, gap).clauses, 0, spans),
        if scan(ts, gap).clauses.len() == 0 {
            ts.len() == 0
        } else {
            is_over(ts, spans.last().1)
        },
{
    if ts.len() == 0 && !gap {
        Seq::empty()
    } else {
        lemma_clean_scan(ts, gap, 0)
    }
}

proof fn lemma_scan_of(ts: Seq<Token>, clauses: Seq<Clause>, start: int, spans: Seq<(int, int)>)
    requires
        clauses.len() > 0,
        are_arguments(ts, clauses, start, spans),
        is_over(ts, spans.last().1),
        ts.len() <= usize::MAX,
    ensures
        scan_from(ts, false, start) == (Scan { clauses, fault: None }),
    decreases clauses.len(),
{
    reveal_strlit("after");
    reveal_strlit("skip");
    assert("after"@.len() != "skip"@.len());
    assert(argument_follows(ts, clauses, start, spans, 0));
    let to = spans[0].1;
    let rest = clauses.drop_first();
    let more = spans.drop_first();
    if clauses.len() == 1 {
        assert(clauses =~= seq![clauses[0]] + Seq::<Clause>::empty());
    } else {
        assert(argument_follows(ts, clauses, start, spans, 1));
        assert forall|c: int| 0 <= c < rest.len() implies #[trigger] argument_follows(
            ts,
            rest,
            to + 1,
            more,
            c,
        ) by {
            assert(argument_follows(ts, clauses, start, spans, c + 1));
        }
        assert(more.last() == spans.last());
        lemma_scan_of(ts, rest, to + 1, more);
        assert(clauses =~= seq![clauses[0]] + rest);
    }
    assert(!sep_at(ts, start));
    assert(path_end(ts, start + 1) == Ok::<int, int>(start + 1));
}

/// Arguments that are what the grammar says are read without a fault, and as what they are.
pub proof fn law_arguments_that_are_written_are_read(
    ts: Seq<Token>,
    clauses: Seq<Clause>,
    spans: Seq<(int, int)>,
)
    requires
        ts.len() <= usize::MAX,
        are_arguments(ts, clauses, 0, spans),
        if clauses.len() == 0 {
            ts.len() == 0
        } else {
            is_over(ts, spans.last().1)
        },
    ensures
        scan(ts, false) == (Scan { clauses, fault: None }),
{
    if clauses.len() > 0 {
        assert(argument_follows(ts, clauses, 0, spans, 0));
        lemma_scan_of(ts, clauses, 0, spans);
    } else {
        assert(clauses =~= Seq::empty());
    }
}

/// An identifier stands at `i`.
pub open spec fn is_ident_at(ts: Seq<Token>, i: int) -> bool {
    0 <= i < ts.len() && ts[i] is Ident
}

/// Two colons that belong together stand at `i`.
pub open spec fn colons_at(ts: Seq<Token>, i: int) -> bool {
    &&& 0 <= i < ts.len() - 1
    &&& ts[i] == Token::Punct(':', true)
    &&& is_char(ts[i + 1], ':')
}

/// Segment `m` of a path whose first segment stands at `first`.
pub open spec fn is_segment(ts: Seq<Token>, first: int, m: int) -> bool {
    is_ident_at(ts, first + 3 * m) && (m > 0 ==> colons_at(ts, first + 3 * m - 2))
}

/// The segments of a path of `n` segments stand at `first`.
pub open spec fn is_path(ts: Seq<Token>, first: int, n: int) -> bool {
    n > 0 && forall|m: int| 0 <= m < n ==> #[trigger] is_segment(ts, first, m)
}

/// Where the first segment of a path stands: behind two colons in front of it, if there are any.
pub open spec fn first_segment(ts: Seq<Token>, from: int) -> int {
    if colons_at(ts, from) {
        from + 2
    } else {
        from
    }
}

/// Nothing stands at `i`, and nothing can come there.
pub open spec fn at_the_end(ts: Seq<Token>, gap: bool, i: int) -> bool {
    i >= ts.len() && !gap
}

/// A literal stands at `i`, or a minus sign and a number.
pub open spec fn is_literal_at(ts: Seq<Token>, i: int) -> bool {
    &&& 0 <= i < ts.len()
    &&& ts[i] is Literal || (is_char(ts[i], '-') && i + 1 < ts.len() && (ts[i + 1] matches
        Token::Literal(text) && text.len() > 0 && '0' <= text[0] <= '9'))
}

/// No argument can be read at `from`, for this reason and at this spot.
pub open spec fn is_malformed(
    ts: Seq<Token>,
    gap: bool,
    from: int,
    spot: Spot,
    fault: ArgFault,
) -> bool {
    let first = first_segment(ts, from);
    match (spot, fault) {
        (Spot::Token(at), ArgFault::KeyAtEnd) => {
            &&& at == first
            &&& at_the_end(ts, gap, first)
        },
        (Spot::Token(at), ArgFault::LiteralKey) => at == first && is_literal_at(ts, first),
        (Spot::Token(at), ArgFault::Key) => {
            &&& at == first
            &&& !is_ident_at(ts, first)
            &&& !is_literal_at(ts, first)
            &&& !at_the_end(ts, gap, first)
        },
        (Spot::Token(at), ArgFault::SegmentAtEnd) => {
            &&& exists|n: int| #[trigger] is_path(ts, first, n) && at == first + 3 * n
            &&& colons_at(ts, at - 2)
            &&& at_the_end(ts, gap, at as int)
        },
        (Spot::Token(at), ArgFault::Segment) => {
            &&& exists|n: int| #[trigger] is_path(ts, first, n) && at == first + 3 * n
            &&& colons_at(ts, at - 2)
            &&& !is_ident_at(ts, at as int)
            &&& !at_the_end(ts, gap, at as int)
        },
        (Spot::Key(start, to), ArgFault::Unknown) => {
            &&& start == from
            &&& exists|n: int| #[trigger] is_path(ts, first, n) && to == first + 3 * n - 2
            &&& !colons_at(ts, to as int)
            &&& to == from + 1 ==> ts[from] != Token::Ident("after"@) && ts[from] != Token::Ident(
                "skip"@,
            )
        },
        (Spot::Token(at), ArgFault::Equals) => {
            &&& at == from + 1
            &&& is_ident_at(ts, from)
            &&& ts[from] == Token::Ident("after"@)
            &&& !colons_at(ts, from + 1)
            &&& !(from + 1 < ts.len() && is_char(ts[from + 1], '='))
        },
        (Spot::Token(at), ArgFault::ListAtEnd) => {
            &&& at == from + 2
            &&& is_ident_at(ts, from)
            &&& ts[from] == Token::Ident("after"@)
            &&& is_char(ts[from + 1], '=')
            &&& at_the_end(ts, gap, from + 2)
        },
        (Spot::Token(at), ArgFault::List) => {
            &&& at == from + 2
            &&& is_ident_at(ts, from)
            &&& ts[from] == Token::Ident("after"@)
            &&& is_char(ts[from + 1], '=')
            &&& !at_the_end(ts, gap, from + 2)
            &&& from + 2 < ts.len() ==> !(ts[from + 2] is Group && ts[from + 2]->Group_0
                == Delim::Bracket)
        },
        _ => false,
    }
}

/// What is wrong with arguments that stand from `start` on: behind the ones that are read a comma is
/// missing, or behind the last comma no argument can be read.
pub open spec fn goes_wrong(
    ts: Seq<Token>,
    gap: bool,
    start: int,
    clauses: Seq<Clause>,
    spans: Seq<(int, int)>,
    spot: Spot,
    fault: ArgFault,
) -> bool {
    if fault is Comma {
        &&& clauses.len() > 0
        &&& spot == Spot::Token(spans.last().1 as usize)
        &&& spans.last().1 <= ts.len()
        &&& !at_the_end(ts, gap, spans.last().1)
        &&& spans.last().1 < ts.len() ==> !is_char(ts[spans.last().1], ',')
    } else if clauses.len() == 0 {
        is_malformed(ts, gap, start, spot, fault)
    } else {
        &&& spans.last().1 < ts.len()
        &&& is_char(ts[spans.last().1], ',')
        &&& !at_the_end(ts, gap, spans.last().1 + 1)
        &&& is_malformed(ts, gap, spans.last().1 + 1, spot, fault)
    }
}

proof fn lemma_path_end(ts: Seq<Token>, first: int, n: int)
    requires
        is_path(ts, first, n),
        0 <= first,
    ensures
        match path_end(ts, first + 3 * n - 2) {
            Ok(end) => exists|m: int| #[trigger] is_path(ts, first, m) && end == first + 3 * m - 2
                && m >= n && !colons_at(ts, end) && end <= ts.len(),
            Err(at) => exists|m: int| #[trigger] is_path(ts, first, m) && at == first + 3 * m
                && colons_at(ts, at - 2) && !is_ident_at(ts, at) && at <= ts.len(),
        },
    decreases ts.len() + 3 - (first + 3 * n),
{
    assert(is_segment(ts, first, n - 1));
    let j = first + 3 * n - 2;
    assert(sep_at(ts, j) <==> colons_at(ts, j));
    if sep_at(ts, j) && word_at(ts, j + 2) {
        assert(is_path(ts, first, n + 1)) by {
            assert forall|m: int| 0 <= m < n + 1 implies #[trigger] is_segment(ts, first, m) by {}
        }
        assert(first + 3 * (n + 1) - 2 == j + 3);
        lemma_path_end(ts, first, n + 1);
    }
}

#[verifier::rlimit(40)]
#[verifier::spinoff_prover]
proof fn lemma_faulty_scan(ts: Seq<Token>, gap: bool, i: int) -> (spans: Seq<(int, int)>)
    requires
        ts.len() <= usize::MAX,
        0 <= i <= ts.len(),
        scan_from(ts, gap, i).fault is Some,
    ensures
        ({
            let found = scan_from(ts, gap, i);
            &&& are_arguments(ts, found.clauses, i, spans)
            &&& goes_wrong(
                ts,
                gap,
                i,
                found.clauses,
                spans,
                (found.fault->0).0,
                (found.fault->0).1,
            )
        }),
    decreases ts.len() - i,
{
    reveal_strlit("after");
    reveal_strlit("skip");
    let found = scan_from(ts, gap, i);
    let first = first_segment(ts, i);
    assert(sep_at(ts, i) <==> colons_at(ts, i));
    if !word_at(ts, first) {
        Seq::empty()
    } else {
        assert(is_path(ts, first, 1)) by {
            assert forall|m: int| 0 <= m < 1 implies #[trigger] is_segment(ts, first, m) by {}
        }
        lemma_path_end(ts, first, 1);
        match path_end(ts, first + 1) {
            Err(at) => {
                let n = choose|n: int| #[trigger]
                    is_path(ts, first, n) && at == first + 3 * n && colons_at(ts, at - 2)
                        && !is_ident_at(ts, at) && at <= ts.len();
                assert(is_path(ts, first, n) && at == first + 3 * n);
                Seq::empty()
            },
            Ok(end) => {
                let n = choose|n: int| #[trigger]
                    is_path(ts, first, n) && end == first + 3 * n - 2 && n >= 1 && !colons_at(
                        ts,
                        end,
                    ) && end <= ts.len();
                assert(is_path(ts, first, n) && end == first + 3 * n - 2);
                if found.clauses.len() == 0 {
                    Seq::empty()
                } else {
                    let (clause, to) = if ts[i] == Token::Ident("after"@) {
                        (Clause::After((i + 2) as usize), i + 3)
                    } else {
                        (Clause::Skip(i as usize), i + 1)
                    };
                    let rest = scan_rest(ts, gap, to);
                    assert(found.clauses == seq![clause] + rest.clauses);
                    assert(found.fault == rest.fault);
                    assert(argument_at(ts, clause, i, to));
                    if !(to < ts.len() && is_char(ts[to], ',')) {
                        lemma_alone(ts, clause, i, to);
                        seq![(i, to)]
                    } else {
                        let more = lemma_faulty_scan(ts, gap, to + 1);
                        lemma_in_front(ts, clause, rest.clauses, i, to, more);
                        let spans = seq![(i, to)] + more;
                        if rest.clauses.len() > 0 {
                            assert(spans.last() == more.last());
                        } else {
                            assert(spans.last() == (i, to));
                            assert(rest.clauses =~= Seq::empty());
                        }
                        spans
                    }
                }
            },
        }
    }
}

/// A fault is where reading cannot go on: what stands in front of it is arguments with commas behind
/// them, and no argument, or no comma, can be read there. What is said of it is why.
pub proof fn law_a_fault_is_where_reading_stops(ts: Seq<Token>, gap: bool) -> (spans: Seq<
    (int, int),
>)
    requires
        ts.len() <= usize::MAX,
        scan(ts, gap).fault is Some,
    ensures
        ({
            let found = scan(ts, gap);
            &&& are_arguments(ts, found.clauses, 0, spans)
            &&& goes_wrong(
                ts,
                gap,
                0,
                found.clauses,
                spans,
                (found.fault->0).0,
                (found.fault->0).1,
            )
        }),
{
    lemma_faulty_scan(ts, gap, 0)
}

/// The element names a field.
pub open spec fn is_name(elem: ElemSyntax) -> bool {
    match elem.kind {
        ElemKindSyntax::Path(names) => names.len() > 0,
        ElemKindSyntax::Int(value, _) => value is Ok,
        ElemKindSyntax::Other => false,
    }
}

/// The element names this field: a path by its last segment, a number by its value.
pub open spec fn names(elem: ElemSyntax, dep: DepName) -> bool {
    match elem.kind {
        ElemKindSyntax::Path(names) => {
            &&& names.len() > 0
            &&& dep.member == MemberName::Named(names.last())
            &&& dep.at == seq![Token::Ident(names.last())]
        },
        ElemKindSyntax::Int(value, literal) => {
            &&& value is Ok
            &&& dep.member == MemberName::Unnamed(value->Ok_0)
            &&& dep.at == literal
        },
        ElemKindSyntax::Other => false,
    }
}

/// Why an element that names no field is refused: for what is wrong with the number, or for not
/// being a name at all.
pub open spec fn refused_for(elem: ElemSyntax) -> Refusal {
    match elem.kind {
        ElemKindSyntax::Int(Err(messages), _) => Refusal::Syntax(messages),
        _ => Refusal::Rule("expected a field name or index"@, At::Whole(elem.tokens)),
    }
}

/// A list is accepted exactly if every element names a field. Each element is read as the field that
/// it names, none is left out and none is added. A list is refused for its first bad element.
pub proof fn law_every_element_is_read(elems: Seq<ElemSyntax>)
    ensures
        members_in(elems) is Ok <==> forall|i: int|
            0 <= i < elems.len() ==> is_name(#[trigger] elems[i]),
        members_in(elems) is Ok ==> {
            &&& members_in(elems)->Ok_0.len() == elems.len()
            &&& forall|i: int|
                0 <= i < elems.len() ==> names(#[trigger] elems[i], members_in(elems)->Ok_0[i])
        },
        forall|k: int|
            0 <= k < elems.len() && !is_name(#[trigger] elems[k]) && (forall|i: int|
                0 <= i < k ==> is_name(#[trigger] elems[i])) ==> members_in(elems) == Err::<
                Seq<DepName>,
                _,
            >(refused_for(elems[k])),
    decreases elems.len(),
{
    if elems.len() > 0 {
        let before = elems.drop_last();
        law_every_element_is_read(before);
        assert(member_in(elems.last()) is Ok <==> is_name(elems.last()));
        assert forall|i: int| 0 <= i < before.len() implies #[trigger] before[i] == elems[i] by {}
        if members_in(before) is Ok {
            assert forall|i: int| 0 <= i < before.len() implies is_name(#[trigger] elems[i]) by {
                assert(is_name(before[i]));
            }
            if members_in(elems) is Ok {
                let deps = members_in(elems)->Ok_0;
                let prior = members_in(before)->Ok_0;
                assert forall|i: int| 0 <= i < elems.len() implies names(
                    #[trigger] elems[i],
                    deps[i],
                ) by {
                    if i < before.len() {
                        assert(names(before[i], prior[i]));
                        assert(deps[i] == prior[i]);
                    }
                }
            }
        } else {
            let i = choose|i: int| 0 <= i < before.len() && !is_name(#[trigger] before[i]);
            assert(!is_name(elems[i]));
        }
        assert forall|k: int|
            0 <= k < elems.len() && !is_name(#[trigger] elems[k]) && (forall|i: int|
                0 <= i < k ==> is_name(#[trigger] elems[i])) implies members_in(elems) == Err::<
            Seq<DepName>,
            _,
        >(refused_for(elems[k])) by {
            if k < before.len() {
                assert(!is_name(before[k]));
                assert forall|i: int| 0 <= i < k implies is_name(#[trigger] before[i]) by {
                    assert(is_name(elems[i]));
                }
            }
        }
    }
}

/// What the list of an argument is parsed as.
pub open spec fn list_in(ts: Seq<Token>, clause: Clause) -> Result<ArraySyntax, Seq<Seq<char>>> {
    match clause {
        Clause::Skip(_) => Ok(ArraySyntax { elems: Seq::empty(), leftover: None }),
        Clause::After(at) => parsed_array(seq![ts[at as int]]),
    }
}

/// The argument can be read: its list is one, and every element names a field.
pub open spec fn is_readable(ts: Seq<Token>, clause: Clause) -> bool {
    list_in(ts, clause) matches Ok(list) && forall|i: int|
        0 <= i < list.elems.len() ==> is_name(#[trigger] list.elems[i])
}

/// How many elements the lists of the arguments have together.
pub open spec fn elements_in(ts: Seq<Token>, clauses: Seq<Clause>) -> nat
    decreases clauses.len(),
{
    if clauses.len() == 0 {
        0
    } else {
        elements_in(ts, clauses.drop_last()) + list_in(ts, clauses.last())->Ok_0.elems.len()
    }
}

/// Element `i` of argument `c` is waited for, at the place where it comes when the elements of all
/// lists are counted through.
pub open spec fn is_waited_for(
    ts: Seq<Token>,
    clauses: Seq<Clause>,
    after: Seq<DepName>,
    c: int,
    i: int,
) -> bool {
    let p = elements_in(ts, clauses.take(c)) + i;
    &&& 0 <= p < after.len()
    &&& names(list_in(ts, clauses[c])->Ok_0.elems[i], after[p])
}

/// One more argument is read if it can be, and adds what its list names.
proof fn lemma_last_argument(ts: Seq<Token>, clauses: Seq<Clause>)
    requires
        clauses.len() > 0,
        requested(ts, clauses.drop_last()) is Ok,
    ensures
        requested(ts, clauses) is Ok <==> is_readable(ts, clauses.last()),
        requested(ts, clauses) is Ok ==> {
            let prior = requested(ts, clauses.drop_last())->Ok_0;
            let reading = requested(ts, clauses)->Ok_0;
            let list = list_in(ts, clauses.last())->Ok_0;
            &&& reading.request.skip == (prior.request.skip || clauses.last() is Skip)
            &&& reading.request.ordered == (prior.request.ordered || clauses.last() is After)
            &&& reading.request.after.len() == prior.request.after.len() + list.elems.len()
            &&& forall|p: int|
                0 <= p < prior.request.after.len() ==> #[trigger] reading.request.after[p]
                    == prior.request.after[p]
            &&& forall|i: int|
                0 <= i < list.elems.len() ==> names(
                    #[trigger] list.elems[i],
                    reading.request.after[prior.request.after.len() + i],
                )
            &&& reading.leftover == if prior.leftover is Some {
                prior.leftover
            } else {
                list.leftover
            }
        },
{
    if let Ok(list) = list_in(ts, clauses.last()) {
        law_every_element_is_read(list.elems);
    }
}

/// Arguments are accepted exactly if each of them can be read.
pub proof fn law_every_argument_is_read(ts: Seq<Token>, clauses: Seq<Clause>)
    ensures
        requested(ts, clauses) is Ok <==> forall|c: int|
            0 <= c < clauses.len() ==> is_readable(ts, #[trigger] clauses[c]),
    decreases clauses.len(),
{
    if clauses.len() > 0 {
        let before = clauses.drop_last();
        law_every_argument_is_read(ts, before);
        if requested(ts, before) is Ok {
            lemma_last_argument(ts, clauses);
            assert forall|c: int| 0 <= c < before.len() implies is_readable(
                ts,
                #[trigger] clauses[c],
            ) by {
                assert(is_readable(ts, before[c]));
            }
        } else {
            let c = choose|c: int| 0 <= c < before.len() && !is_readable(ts, #[trigger] before[c]);
            assert(!is_readable(ts, clauses[c]));
        }
    }
}

/// A field is skipped exactly if there is a `skip`, and ordered exactly if there is an `after`.
pub proof fn law_every_key_is_seen(ts: Seq<Token>, clauses: Seq<Clause>)
    requires
        requested(ts, clauses) is Ok,
    ensures
        requested(ts, clauses)->Ok_0.request.skip <==> exists|c: int|
            0 <= c < clauses.len() && (#[trigger] clauses[c]) is Skip,
        requested(ts, clauses)->Ok_0.request.ordered <==> exists|c: int|
            0 <= c < clauses.len() && (#[trigger] clauses[c]) is After,
    decreases clauses.len(),
{
    if clauses.len() > 0 {
        let before = clauses.drop_last();
        let last = clauses.len() - 1;
        law_every_key_is_seen(ts, before);
        lemma_last_argument(ts, clauses);
        assert(clauses[last] == clauses.last());
        if exists|c: int| 0 <= c < before.len() && (#[trigger] before[c]) is Skip {
            let c = choose|c: int| 0 <= c < before.len() && (#[trigger] before[c]) is Skip;
            assert(clauses[c] is Skip);
        }
        if exists|c: int| 0 <= c < before.len() && (#[trigger] before[c]) is After {
            let c = choose|c: int| 0 <= c < before.len() && (#[trigger] before[c]) is After;
            assert(clauses[c] is After);
        }
        assert forall|c: int| 0 <= c < before.len() implies #[trigger] clauses[c] == before[c] by {}
    }
}

/// As many fields are waited for as there are elements in the `after` lists together: none is added.
pub proof fn law_only_listed_fields_are_waited_for(ts: Seq<Token>, clauses: Seq<Clause>)
    requires
        requested(ts, clauses) is Ok,
    ensures
        requested(ts, clauses)->Ok_0.request.after.len() == elements_in(ts, clauses),
    decreases clauses.len(),
{
    if clauses.len() > 0 {
        law_only_listed_fields_are_waited_for(ts, clauses.drop_last());
        lemma_last_argument(ts, clauses);
    }
}

/// Every element that is written in an accepted `after` list is waited for, in the order in which
/// they are written.
pub proof fn law_every_listed_field_is_waited_for(
    ts: Seq<Token>,
    clauses: Seq<Clause>,
    c: int,
    i: int,
)
    requires
        requested(ts, clauses) is Ok,
        0 <= c < clauses.len(),
        0 <= i < list_in(ts, clauses[c])->Ok_0.elems.len(),
    ensures
        is_waited_for(ts, clauses, requested(ts, clauses)->Ok_0.request.after, c, i),
    decreases clauses.len(),
{
    let before = clauses.drop_last();
    let prior = requested(ts, before)->Ok_0.request.after;
    let after = requested(ts, clauses)->Ok_0.request.after;
    lemma_last_argument(ts, clauses);
    law_only_listed_fields_are_waited_for(ts, before);
    if c < before.len() {
        assert(before[c] == clauses[c]);
        assert(before.take(c) =~= clauses.take(c));
        law_every_listed_field_is_waited_for(ts, before, c, i);
        let p = elements_in(ts, before.take(c)) + i;
        assert(after[p] == prior[p]);
    } else {
        assert(clauses.take(c) =~= before);
        assert(clauses[c] == clauses.last());
        assert(names(list_in(ts, clauses[c])->Ok_0.elems[i], after[prior.len() + i]));
    }
}

/// What is left over within a list is complained of exactly if there is such a thing, and of the
/// first such list.
pub proof fn law_the_first_leftover_counts(ts: Seq<Token>, clauses: Seq<Clause>, c: int)
    requires
        requested(ts, clauses) is Ok,
        0 <= c <= clauses.len(),
        forall|d: int|
            0 <= d < c ==> list_in(ts, #[trigger] clauses[d])->Ok_0.leftover is None,
        c < clauses.len() ==> list_in(ts, clauses[c])->Ok_0.leftover is Some,
    ensures
        if c < clauses.len() {
            requested(ts, clauses)->Ok_0.leftover == list_in(ts, clauses[c])->Ok_0.leftover
        } else {
            requested(ts, clauses)->Ok_0.leftover is None
        },
    decreases clauses.len(),
{
    if clauses.len() > 0 {
        let before = clauses.drop_last();
        let last = clauses.len() - 1;
        let d = if c < before.len() {
            c
        } else {
            before.len() as int
        };
        assert(clauses[last] == clauses.last());
        assert forall|e: int| 0 <= e < d implies list_in(
            ts,
            #[trigger] before[e],
        )->Ok_0.leftover is None by {
            assert(list_in(ts, clauses[e])->Ok_0.leftover is None);
        }
        law_the_first_leftover_counts(ts, before, d);
        lemma_last_argument(ts, clauses);
    }
}

/// Why the first argument that cannot be read is refused: its list is none, or for the first element
/// that names no field.
pub proof fn law_the_first_bad_argument_is_refused(
    ts: Seq<Token>,
    clauses: Seq<Clause>,
    c: int,
    k: int,
)
    requires
        0 <= c < clauses.len(),
        forall|d: int| 0 <= d < c ==> is_readable(ts, #[trigger] clauses[d]),
        list_in(ts, clauses[c]) matches Ok(list) ==> {
            &&& 0 <= k < list.elems.len()
            &&& !is_name(list.elems[k])
            &&& forall|i: int| 0 <= i < k ==> is_name(#[trigger] list.elems[i])
        },
    ensures
        requested(ts, clauses) == Err::<Reading, _>(
            match list_in(ts, clauses[c]) {
                Err(messages) => Refusal::Syntax(messages),
                Ok(list) => refused_for(list.elems[k]),
            },
        ),
    decreases clauses.len(),
{
    let before = clauses.drop_last();
    if c < before.len() {
        assert(before[c] == clauses[c]);
        assert forall|d: int| 0 <= d < c implies is_readable(ts, #[trigger] before[d]) by {
            assert(is_readable(ts, clauses[d]));
        }
        law_the_first_bad_argument_is_refused(ts, before, c, k);
    } else {
        assert forall|d: int| 0 <= d < before.len() implies is_readable(ts, #[trigger] before[d]) by {
            assert(is_readable(ts, clauses[d]));
        }
        law_every_argument_is_read(ts, before);
        assert(clauses[c] == clauses.last());
        if let Ok(list) = list_in(ts, clauses[c]) {
            law_every_element_is_read(list.elems);
        }
    }
}

/// Where a fault in the arguments is shown: at all of a key, at a token, or, behind the last token,
/// at the gap or else at the closing delimiter.
pub open spec fn shown_at(ts: Seq<Token>, gap: Option<Token>, spot: Spot, at: At) -> bool {
    match spot {
        Spot::Key(from, to) => at matches At::Whole(tokens) && tokens == ts.subrange(
            from as int,
            to as int,
        ),
        Spot::Token(i) => if i < ts.len() {
            at matches At::Start(tokens) && tokens == seq![ts[i as int]]
        } else if gap is Some {
            at matches At::Start(tokens) && tokens == seq![gap->0]
        } else {
            at is End
        },
    }
}

/// What the arguments of an attribute come to: what they ask for together, if all of them can be
/// read and nothing is wrong. Else they are refused, for the first argument that cannot be read, else
/// for the fault where reading stops, else for what is left over within a list.
pub proof fn law_arguments_are_answered(args: Seq<Token>)
    ensures
        ({
            let ts = transparent(args);
            let found = scan(ts, gap_of(args) is Some);
            match requested(ts, found.clauses) {
                Err(refusal) => request_in(args) == Err::<Request, _>(refusal),
                Ok(reading) => match found.fault {
                    Some((spot, fault)) => request_in(args) matches Err(Refusal::Rule(message, at))
                        && message == fault.message() && shown_at(ts, gap_of(args), spot, at),
                    None => match reading.leftover {
                        Some(messages) => request_in(args) == Err::<Request, _>(
                            Refusal::Syntax(messages),
                        ),
                        None => request_in(args) == Ok::<_, Refusal>(reading.request),
                    },
                },
            }
        }),
{
}

/// An attribute is the one that is read exactly if its name is `eulogy`.
pub open spec fn is_eulogy(attr: AttrSyntax) -> bool {
    attr.path matches Some(name) && name == "eulogy"@
}

/// The request asks for nothing: the field is cleaned up, and waits for no other.
pub open spec fn asks_for_nothing(request: Request) -> bool {
    !request.skip && !request.ordered && request.after.len() == 0
}

proof fn lemma_request_from(attrs: Seq<AttrSyntax>, i: int, k: int)
    requires
        0 <= i <= k <= attrs.len(),
        forall|j: int| i <= j < k ==> !is_eulogy(#[trigger] attrs[j]),
    ensures
        request_from(attrs, i) == request_from(attrs, k),
    decreases k - i,
{
    if i < k {
        assert(!is_eulogy(attrs[i]));
        lemma_request_from(attrs, i + 1, k);
    }
}

/// What a field asks for is what its first `eulogy` attribute asks for, wherever that stands among
/// other attributes. One without arguments asks for nothing.
pub proof fn law_the_first_eulogy_attribute_counts(attrs: Seq<AttrSyntax>, k: int)
    requires
        0 <= k < attrs.len(),
        is_eulogy(attrs[k]),
        forall|j: int| 0 <= j < k ==> !is_eulogy(#[trigger] attrs[j]),
    ensures
        match attrs[k].args {
            Some(args) => request_from(attrs, 0) == request_in(args),
            None => request_from(attrs, 0) matches Ok(request) && asks_for_nothing(request),
        },
{
    lemma_request_from(attrs, 0, k);
}

/// A field without an `eulogy` attribute asks for nothing, whatever other attributes it has.
pub proof fn law_other_attributes_ask_for_nothing(attrs: Seq<AttrSyntax>)
    requires
        forall|j: int| 0 <= j < attrs.len() ==> !is_eulogy(#[trigger] attrs[j]),
    ensures
        request_from(attrs, 0) matches Ok(request) && asks_for_nothing(request),
{
    lemma_request_from(attrs, 0, attrs.len() as int);
}

/// One more attribute that is not ours, anywhere among the others, changes nothing.
pub proof fn law_an_attribute_more_changes_nothing(
    attrs: Seq<AttrSyntax>,
    more: AttrSyntax,
    k: int,
)
    requires
        0 <= k <= attrs.len(),
        !is_eulogy(more),
    ensures
        request_from(attrs.insert(k, more), 0) == request_from(attrs, 0),
{
    let all = attrs.insert(k, more);
    if exists|i: int| 0 <= i < attrs.len() && is_eulogy(#[trigger] attrs[i]) {
        let any = choose|i: int| 0 <= i < attrs.len() && is_eulogy(#[trigger] attrs[i]);
        let i = lemma_first_eulogy(attrs, 0, any);
        lemma_request_from(attrs, 0, i);
        let j = if i < k {
            i
        } else {
            i + 1
        };
        assert(all[j] == attrs[i]);
        assert forall|m: int| 0 <= m < j implies !is_eulogy(#[trigger] all[m]) by {
            if m < k {
                assert(all[m] == attrs[m]);
            } else if m > k {
                assert(all[m] == attrs[m - 1]);
            }
        }
        lemma_request_from(all, 0, j);
    } else {
        assert forall|m: int| 0 <= m < all.len() implies !is_eulogy(#[trigger] all[m]) by {
            if m < k {
                assert(all[m] == attrs[m]);
            } else if m > k {
                assert(all[m] == attrs[m - 1]);
            }
        }
        lemma_request_from(attrs, 0, attrs.len() as int);
        lemma_request_from(all, 0, all.len() as int);
    }
}

proof fn lemma_first_eulogy(attrs: Seq<AttrSyntax>, i: int, k: int) -> (first: int)
    requires
        0 <= i <= k < attrs.len(),
        is_eulogy(attrs[k]),
        forall|j: int| 0 <= j < i ==> !is_eulogy(#[trigger] attrs[j]),
    ensures
        i <= first <= k,
        is_eulogy(attrs[first]),
        forall|j: int| 0 <= j < first ==> !is_eulogy(#[trigger] attrs[j]),
    decreases k - i,
{
    if is_eulogy(attrs[i]) {
        i
    } else {
        lemma_first_eulogy(attrs, i + 1, k)
    }
}

/// A field that is to be skipped cannot wait for others as well: that is refused, at the word `skip`.
/// Apart from that, a field asks for what its attributes ask for.
pub proof fn law_skip_excludes_after(field: FieldSyntax)
    ensures
        match request_from(field.attrs, 0) {
            Err(refusal) => request_of(field) == Err::<Request, _>(refusal),
            Ok(request) => if request.skip && request.ordered {
                request_of(field) == Err::<Request, _>(
                    Refusal::Rule(
                        "`skip` cannot be combined with `after` — pick one"@,
                        At::Whole(seq![Token::Ident("skip"@)]),
                    ),
                )
            } else {
                request_of(field) == Ok::<_, Refusal>(request)
            },
        },
{
}

/// The directives that are read say what is asked for, dependency by dependency.
pub open spec fn says(directives: Directives, request: Request) -> bool {
    &&& directives.skip == request.skip
    &&& directives.ordered == request.ordered
    &&& directives.after@.len() == request.after.len()
    &&& forall|p: int|
        0 <= p < request.after.len() ==> {
            &&& tokens_of((#[trigger] directives.after@[p]).at) == request.after[p].at
            &&& match directives.after@[p].member {
                Member::Named(name) => request.after[p].member == MemberName::Named(name@),
                Member::Unnamed(index) => request.after[p].member == MemberName::Unnamed(index),
            }
        }
}

proof fn lemma_says(directives: Directives)
    ensures
        says(directives, directives.request()),
{
    assert forall|p: int| 0 <= p < directives.request().after.len() implies {
        &&& tokens_of((#[trigger] directives.after@[p]).at) == directives.request().after[p].at
        &&& match directives.after@[p].member {
            Member::Named(name) => directives.request().after[p].member == MemberName::Named(name@),
            Member::Unnamed(index) => directives.request().after[p].member
                == MemberName::Unnamed(index),
        }
    } by {}
}

/// Reading the arguments of an attribute gives what they ask for, or is refused as they are.
pub proof fn law_read_args_answers(
    args: &AttrArgs,
    result: Result<Directives, DeriveError>,
)
    requires
        call_ensures(read_args, (args,), result),
    ensures
        match result {
            Ok(directives) => request_in(tokens_of(args.tokens)) matches Ok(request) && says(
                directives,
                request,
            ),
            Err(_) => request_in(tokens_of(args.tokens)) is Err,
        },
{
    if let Ok(directives) = result {
        lemma_says(directives);
    }
}

/// An attribute of a field that is named `eulogy`.
pub open spec fn is_named_eulogy(attr: Attr) -> bool {
    attr.path matches Some(name) && name@ == "eulogy"@
}

/// Reading a field gives what the arguments of its first `eulogy` attribute ask for, wherever that
/// stands, and else nothing: the field is cleaned up and waits for no other. Where the arguments are
/// refused, the field is; so is `skip` together with `after`.
pub proof fn law_read_field_answers(field: &Field, result: Result<Directives, DeriveError>, k: int)
    requires
        call_ensures(read_field, (field,), result),
        0 <= k <= field.attrs@.len(),
        forall|j: int| 0 <= j < k ==> !is_named_eulogy(#[trigger] field.attrs@[j]),
        k < field.attrs@.len() ==> is_named_eulogy(field.attrs@[k]),
    ensures
        if k < field.attrs@.len() && field.attrs@[k].args is Some {
            match request_in(tokens_of(field.attrs@[k].args->0.tokens)) {
                Err(_) => result is Err,
                Ok(request) => if request.skip && request.ordered {
                    result is Err
                } else {
                    result matches Ok(directives) && says(directives, request)
                },
            }
        } else {
            result matches Ok(directives) && !directives.skip && !directives.ordered
                && directives.after@.len() == 0
        },
{
    let attrs = field.syntax().attrs;
    assert(attrs.len() == field.attrs@.len());
    assert forall|j: int| 0 <= j < attrs.len() implies is_eulogy(#[trigger] attrs[j])
        == is_named_eulogy(field.attrs@[j]) by {}
    assert forall|j: int| 0 <= j < k implies !is_eulogy(#[trigger] attrs[j]) by {
        assert(!is_named_eulogy(field.attrs@[j]));
    }
    if k < attrs.len() {
        law_the_first_eulogy_attribute_counts(attrs, k);
    } else {
        law_other_attributes_ask_for_nothing(attrs);
    }
    law_skip_excludes_after(field.syntax());
    if let Ok(directives) = result {
        lemma_says(directives);
    }
}

} // verus!
