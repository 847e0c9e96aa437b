//! The arguments of an `eulogy` attribute.
//!
//! ```text
//! arguments = [ argument { "," argument } [ "," ] ]
//! argument  = "skip" | "after" "=" "[" ... "]"
//! ```
//!
//! A key that is a longer path, or starts with `::`, is read to its end and then refused.
//!
//! A macro can leave an invisible group without tokens behind the last argument. Nothing can be
//! read from that gap, but the arguments are not at their end before it.
use crate::derive::fault::ArgFault;
use crate::derive::tokens::{tokens_in, Delim, Kind, Token, Tree};
use vstd::prelude::*;

verus! {

/// Where a clause stands.
pub open spec fn place_of(clause: Clause) -> usize {
    match clause {
        Clause::Skip(at) => at,
        Clause::After(at) => at,
    }
}

/// The clause stands there: the word `skip`, or a list in brackets.
pub open spec fn stands_at(ts: Seq<Token>, clause: Clause) -> bool {
    match clause {
        Clause::Skip(at) => key_is(ts, at as int, "skip"@),
        Clause::After(at) => list_at(ts, at as int),
    }
}

/// One argument, by where it stands.
#[derive(Clone, Copy, PartialEq, Eq, Structural)]
pub enum Clause {
    /// `skip` at this place.
    Skip(usize),
    /// `after`, with the list at this place.
    After(usize),
}

/// Where a fault is.
#[derive(Clone, Copy, PartialEq, Eq, Structural)]
pub enum Spot {
    /// A key, from its first token up to its end.
    Key(usize, usize),
    /// One token, or the end.
    Token(usize),
}

/// The arguments up to the first that is malformed, and what is wrong with that one.
pub struct Scan {
    pub clauses: Seq<Clause>,
    pub fault: Option<(Spot, ArgFault)>,
}

/// The token at `i` is an identifier.
pub open spec fn word_at(ts: Seq<Token>, i: int) -> bool {
    0 <= i < ts.len() && ts[i] is Ident
}

/// The token at `i` is this character.
pub open spec fn punct_at(ts: Seq<Token>, i: int, ch: char) -> bool {
    0 <= i < ts.len() && ts[i] is Punct && ts[i]->Punct_0 == ch
}

/// `::` starts at `i`.
pub open spec fn sep_at(ts: Seq<Token>, i: int) -> bool {
    punct_at(ts, i, ':') && ts[i]->Punct_1 && punct_at(ts, i + 1, ':')
}

/// A list in brackets stands at `i`.
pub open spec fn list_at(ts: Seq<Token>, i: int) -> bool {
    0 <= i < ts.len() && ts[i] is Group && ts[i]->Group_0 == Delim::Bracket
}

/// The identifier at `i` is this one.
pub open spec fn key_is(ts: Seq<Token>, i: int, name: Seq<char>) -> bool {
    word_at(ts, i) && ts[i]->Ident_0 == name
}

/// Where a path ends that goes on behind a segment that ends at `j`, or where it breaks off.
pub open spec fn path_end(ts: Seq<Token>, j: int) -> Result<int, int>
    decreases ts.len() - j,
{
    if !sep_at(ts, j) {
        Ok(j)
    } else if word_at(ts, j + 2) {
        path_end(ts, j + 3)
    } else {
        Err(j + 2)
    }
}

/// The arguments end at `i`.
pub open spec fn ends_at(ts: Seq<Token>, gap: bool, i: int) -> bool {
    i >= ts.len() && !gap
}

/// The text is that of a number.
pub open spec fn is_number(text: Seq<char>) -> bool {
    text.len() > 0 && '0' <= text[0] <= '9'
}

/// A literal stands at `i`, or a number with a minus sign.
pub open spec fn literal_at(ts: Seq<Token>, i: int) -> bool {
    ||| 0 <= i < ts.len() && ts[i] is Literal
    ||| punct_at(ts, i, '-') && i + 1 < ts.len() && ts[i + 1] is Literal && is_number(
        ts[i + 1]->Literal_0,
    )
}

/// What is wrong at `i`, where a key has to stand and does not.
pub open spec fn key_fault(ts: Seq<Token>, gap: bool, i: int) -> ArgFault {
    if ends_at(ts, gap, i) {
        ArgFault::KeyAtEnd
    } else if literal_at(ts, i) {
        ArgFault::LiteralKey
    } else {
        ArgFault::Key
    }
}

/// What is wrong at `i`, where an identifier has to follow `::` and does not.
pub open spec fn segment_fault(ts: Seq<Token>, gap: bool, i: int) -> ArgFault {
    if ends_at(ts, gap, i) {
        ArgFault::SegmentAtEnd
    } else {
        ArgFault::Segment
    }
}

/// What is wrong at `i`, where a list has to stand and does not.
pub open spec fn list_fault(ts: Seq<Token>, gap: bool, i: int) -> ArgFault {
    if ends_at(ts, gap, i) {
        ArgFault::ListAtEnd
    } else {
        ArgFault::List
    }
}

/// Puts a clause in front.
pub open spec fn with_clause(clause: Clause, rest: Scan) -> Scan {
    Scan { clauses: seq![clause] + rest.clauses, fault: rest.fault }
}

/// Nothing more than a fault at one token.
pub open spec fn faulty(at: int, fault: ArgFault) -> Scan {
    Scan { clauses: Seq::empty(), fault: Some((Spot::Token(at as usize), fault)) }
}

/// Nothing more than a key that is not known.
pub open spec fn unknown(from: int, to: int) -> Scan {
    Scan {
        clauses: Seq::empty(),
        fault: Some((Spot::Key(from as usize, to as usize), ArgFault::Unknown)),
    }
}

/// What is read from `i` on, where an argument has to start.
pub open spec fn scan_from(ts: Seq<Token>, gap: bool, i: int) -> Scan
    decreases ts.len() - i, 1int,
{
    let start = if sep_at(ts, i) {
        i + 2
    } else {
        i
    };
    if !word_at(ts, start) {
        faulty(start, key_fault(ts, gap, start))
    } else {
        match path_end(ts, start + 1) {
            Err(at) => faulty(at, segment_fault(ts, gap, at)),
            Ok(end) => if start > i || end > start + 1 {
                unknown(i, end)
            } else if key_is(ts, i, "after"@) {
                if !punct_at(ts, i + 1, '=') {
                    faulty(i + 1, ArgFault::Equals)
                } else if !list_at(ts, i + 2) {
                    faulty(i + 2, list_fault(ts, gap, i + 2))
                } else {
                    with_clause(Clause::After((i + 2) as usize), scan_rest(ts, gap, i + 3))
                }
            } else if key_is(ts, i, "skip"@) {
                with_clause(Clause::Skip(i as usize), scan_rest(ts, gap, i + 1))
            } else {
                unknown(i, end)
            },
        }
    }
}

/// What is read from `i` on, where an argument has just ended.
pub open spec fn scan_rest(ts: Seq<Token>, gap: bool, i: int) -> Scan
    decreases ts.len() - i, 0int,
{
    if ends_at(ts, gap, i) {
        Scan { clauses: Seq::empty(), fault: None }
    } else if !punct_at(ts, i, ',') {
        faulty(i, ArgFault::Comma)
    } else if ends_at(ts, gap, i + 1) {
        Scan { clauses: Seq::empty(), fault: None }
    } else {
        scan_from(ts, gap, i + 1)
    }
}

/// What the arguments of an attribute say. There may be a gap behind the last token.
pub open spec fn scan(ts: Seq<Token>, gap: bool) -> Scan {
    if ends_at(ts, gap, 0) {
        Scan { clauses: Seq::empty(), fault: None }
    } else {
        scan_from(ts, gap, 0)
    }
}

/// Whether the token at `i` is an identifier.
fn is_word(trees: &Vec<Tree>, i: usize) -> (yes: bool)
    ensures
        yes == word_at(tokens_in(trees@), i as int),
{
    i < trees.len() && match &trees[i].kind {
        Kind::Ident(_) => true,
        _ => false,
    }
}

/// Whether the token at `i` is this character.
fn is_punct(trees: &Vec<Tree>, i: usize, ch: char) -> (yes: bool)
    ensures
        yes == punct_at(tokens_in(trees@), i as int, ch),
{
    i < trees.len() && match &trees[i].kind {
        Kind::Punct(c, _) => *c == ch,
        _ => false,
    }
}

/// Whether `::` starts at `i`.
fn is_sep(trees: &Vec<Tree>, i: usize) -> (yes: bool)
    ensures
        yes == sep_at(tokens_in(trees@), i as int),
{
    is_punct(trees, i, ':') && match &trees[i].kind {
        Kind::Punct(_, joint) => *joint,
        _ => false,
    } && trees.len() - i > 1 && is_punct(trees, i + 1, ':')
}

/// Whether a list in brackets stands at `i`.
fn is_list(trees: &Vec<Tree>, i: usize) -> (yes: bool)
    ensures
        yes == list_at(tokens_in(trees@), i as int),
{
    i < trees.len() && match &trees[i].kind {
        Kind::Group(delim, _) => *delim == Delim::Bracket,
        _ => false,
    }
}

/// Whether the identifier at `i` is this one.
fn is_key(trees: &Vec<Tree>, i: usize, name: &str) -> (yes: bool)
    ensures
        yes == key_is(tokens_in(trees@), i as int, name@),
{
    i < trees.len() && match &trees[i].kind {
        Kind::Ident(word) => *word == name.to_owned(),
        _ => false,
    }
}

/// Whether a text is that of a number.
fn starts_with_digit(text: &String) -> (yes: bool)
    ensures
        yes == is_number(text@),
{
    text.unicode_len() > 0 && {
        let c = text.get_char(0);
        '0' <= c && c <= '9'
    }
}

/// Whether a literal stands at `i`, or a number with a minus sign.
fn is_literal(trees: &Vec<Tree>, i: usize) -> (yes: bool)
    ensures
        yes == literal_at(tokens_in(trees@), i as int),
{
    if i >= trees.len() {
        return false;
    }
    match &trees[i].kind {
        Kind::Literal(_) => true,
        Kind::Punct('-', _) => trees.len() - i > 1 && match &trees[i + 1].kind {
            Kind::Literal(text) => starts_with_digit(text),
            _ => false,
        },
        _ => false,
    }
}

/// The arguments of an attribute, up to the first that is malformed.
pub struct Args {
    pub clauses: Vec<Clause>,
    /// Where the first malformed argument goes wrong, and how.
    pub fault: Option<(Spot, ArgFault)>,
}

impl Args {
    /// What the arguments stand for.
    pub open spec fn scan(self) -> Scan {
        Scan { clauses: self.clauses@, fault: self.fault }
    }
}

/// The spot is within so many tokens.
pub open spec fn is_within(spot: Spot, len: nat) -> bool {
    match spot {
        Spot::Key(from, to) => from <= to <= len,
        Spot::Token(at) => at <= len,
    }
}

/// Reads a path on from behind a segment, and says where it ends or breaks off.
fn read_path(trees: &Vec<Tree>, from: usize) -> (end: Result<usize, usize>)
    requires
        from <= trees.len(),
    ensures
        match end {
            Ok(end) => path_end(tokens_in(trees@), from as int) == Ok::<int, int>(end as int)
                && from <= end <= trees.len(),
            Err(at) => path_end(tokens_in(trees@), from as int) == Err::<int, int>(at as int) && at
                <= trees.len(),
        },
{
    let mut j: usize = from;
    while is_sep(trees, j)
        invariant
            from <= j <= trees.len(),
            path_end(tokens_in(trees@), j as int) == path_end(tokens_in(trees@), from as int),
        decreases trees.len() - j,
    {
        if !is_word(trees, j + 2) {
            return Err(j + 2);
        }
        j = j + 3;
    }
    Ok(j)
}

/// What is read at `i`, where an argument has to start: the argument and where it ends, or what is
/// wrong and where.
fn read_clause(trees: &Vec<Tree>, gap: bool, i: usize) -> (result: Result<
    (Clause, usize),
    (Spot, ArgFault),
>)
    requires
        i <= trees.len(),
    ensures
        match result {
            Ok((clause, end)) => {
                &&& i < end <= trees.len()
                &&& place_of(clause) < trees.len()
                &&& stands_at(tokens_in(trees@), clause)
                &&& scan_from(tokens_in(trees@), gap, i as int) == with_clause(
                    clause,
                    scan_rest(tokens_in(trees@), gap, end as int),
                )
            },
            Err((spot, fault)) => {
                &&& is_within(spot, trees@.len())
                &&& scan_from(tokens_in(trees@), gap, i as int) == (Scan {
                    clauses: Seq::empty(),
                    fault: Some((spot, fault)),
                })
            },
        },
{
    let start = if is_sep(trees, i) {
        i + 2
    } else {
        i
    };
    if !is_word(trees, start) {
        return if start >= trees.len() && !gap {
            Err((Spot::Token(start), ArgFault::KeyAtEnd))
        } else if is_literal(trees, start) {
            Err((Spot::Token(start), ArgFault::LiteralKey))
        } else {
            Err((Spot::Token(start), ArgFault::Key))
        };
    }
    match read_path(trees, start + 1) {
        Err(at) => if at >= trees.len() && !gap {
            Err((Spot::Token(at), ArgFault::SegmentAtEnd))
        } else {
            Err((Spot::Token(at), ArgFault::Segment))
        },
        Ok(end) => if start > i || end > start + 1 {
            Err((Spot::Key(i, end), ArgFault::Unknown))
        } else if is_key(trees, i, "after") {
            if !is_punct(trees, i + 1, '=') {
                Err((Spot::Token(i + 1), ArgFault::Equals))
            } else if !is_list(trees, i + 2) {
                if i + 2 >= trees.len() && !gap {
                    Err((Spot::Token(i + 2), ArgFault::ListAtEnd))
                } else {
                    Err((Spot::Token(i + 2), ArgFault::List))
                }
            } else {
                Ok((Clause::After(i + 2), i + 3))
            }
        } else if is_key(trees, i, "skip") {
            Ok((Clause::Skip(i), i + 1))
        } else {
            Err((Spot::Key(i, end), ArgFault::Unknown))
        },
    }
}

/// What a scan gives when `before` has been read already.
spec fn continued(before: Seq<Clause>, rest: Scan) -> Scan {
    Scan { clauses: before + rest.clauses, fault: rest.fault }
}

/// Reads the arguments of an attribute. There may be a gap behind the last token.
pub fn scan_args(trees: &Vec<Tree>, gap: bool) -> (args: Args)
    ensures
        args.scan() == scan(tokens_in(trees@), gap),
        forall|c: int|
            0 <= c < args.clauses@.len() ==> place_of(#[trigger] args.clauses@[c]) < trees@.len()
                && stands_at(tokens_in(trees@), args.clauses@[c]),
        args.fault matches Some((spot, _)) ==> is_within(spot, trees@.len()),
{
    let ghost ts = tokens_in(trees@);
    let mut clauses: Vec<Clause> = Vec::new();
    let mut i: usize = 0;
    let mut over = trees.len() == 0 && !gap;
    assert(clauses@ + scan(ts, gap).clauses =~= scan(ts, gap).clauses);
    while !over
        invariant
            i <= trees.len(),
            ts == tokens_in(trees@),
            forall|c: int|
                0 <= c < clauses@.len() ==> place_of(#[trigger] clauses@[c]) < trees@.len()
                    && stands_at(ts, clauses@[c]),
            continued(
                clauses@,
                if over {
                    (Scan { clauses: Seq::empty(), fault: None })
                } else {
                    scan_from(ts, gap, i as int)
                },
            ) == scan(ts, gap),
        decreases trees.len() - i,
    {
        match read_clause(trees, gap, i) {
            Err((spot, fault)) => {
                let args = Args { clauses, fault: Some((spot, fault)) };
                assert(args.scan().clauses =~= scan(ts, gap).clauses);
                return args;
            },
            Ok((clause, end)) => {
                let ghost before = clauses@;
                let ghost rest = scan_rest(ts, gap, end as int);
                clauses.push(clause);
                assert(before + (seq![clause] + rest.clauses) =~= clauses@ + rest.clauses);
                if end >= trees.len() && !gap {
                    over = true;
                    i = end;
                } else if !is_punct(trees, end, ',') {
                    let args = Args { clauses, fault: Some((Spot::Token(end), ArgFault::Comma)) };
                    assert(args.scan().clauses =~= scan(ts, gap).clauses);
                    return args;
                } else {
                    i = end + 1;
                    over = i >= trees.len() && !gap;
                }
            },
        }
    }
    let args = Args { clauses, fault: None };
    assert(args.scan().clauses =~= scan(ts, gap).clauses);
    args
}

} // verus!
