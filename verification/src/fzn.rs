//! Reading the textual `.fzn` format, one statement at a time.
pub mod literals;
pub mod annotations;
pub mod items;

use vstd::prelude::*;
use vstd::utf8::valid_utf8;

use crate::error::{FznParseError, LinkError};
use crate::intern::{
    accepted, accepted_values, atoms_x, constraints_ids_x, find_refused, first_refused, model_atoms,
    uninit_ids_x,
    model_ids, model_rn, names_ids_x, rn_constraints_x, rn_names_x, rn_opt_solve_x, solve_ids_x,
};
use crate::fzn::items::{
    constraint_item, constraint_item_x, declaration, declaration_x, predicate_item,
    predicate_item_x, solve_item, solve_item_x,
};
use crate::intermediate::{
    views, Constraint, NameId, SolveObjective, SpecConstraint, SpecDeclaration, SpecSolve,
};
use crate::lex::{ignored_end, match_word, skip_ignored, word_end, Word};
use crate::link::{link, link_error_is, link_model, link_model_with, link_with_atoms, SpecLinkError};
use crate::model::{FlatZinc, PFlatZinc};
use crate::names::{extend_uninit, NameStore, Names};

verus! {

/// Where the statement scanner stands with respect to comments.
#[derive(Clone, Copy, PartialEq, Eq, Structural, Debug)]
pub enum CommentState {
    /// Outside any comment.
    Normal,
    /// Inside a `%` line comment.
    Line,
    /// Inside a `/* */` block comment.
    Block,
    /// Inside a block comment, just after a `*`.
    BlockStar,
}

/// The position just after the first `;` of `s` at or after `i` that stands
/// outside comments, scanning from comment state `st`.
pub open spec fn statement_end(s: Seq<u8>, i: int, st: CommentState) -> Option<int>
    decreases s.len() - i,
{
    if i < 0 || i >= s.len() {
        None
    } else {
        let b = s[i];
        match st {
            CommentState::Normal => if b == 37 {
                statement_end(s, i + 1, CommentState::Line)
            } else if b == 47 && i + 1 < s.len() && s[i + 1] == 42 {
                statement_end(s, i + 2, CommentState::Block)
            } else if b == 59 {
                Some(i + 1)
            } else {
                statement_end(s, i + 1, CommentState::Normal)
            },
            CommentState::Line => statement_end(
                s,
                i + 1,
                if b == 10 {
                    CommentState::Normal
                } else {
                    CommentState::Line
                },
            ),
            CommentState::Block => statement_end(
                s,
                i + 1,
                if b == 42 {
                    CommentState::BlockStar
                } else {
                    CommentState::Block
                },
            ),
            CommentState::BlockStar => statement_end(
                s,
                i + 1,
                if b == 47 {
                    CommentState::Normal
                } else if b == 42 {
                    CommentState::BlockStar
                } else {
                    CommentState::Block
                },
            ),
        }
    }
}

pub proof fn lemma_statement_end(s: Seq<u8>, i: int, st: CommentState)
    requires
        0 <= i,
    ensures
        statement_end(s, i, st) matches Some(k) ==> i < k <= s.len(),
    decreases s.len() - i,
{
    if i < s.len() {
        let b = s[i];
        match st {
            CommentState::Normal => if b == 37 {
                lemma_statement_end(s, i + 1, CommentState::Line);
            } else if b == 47 && i + 1 < s.len() && s[i + 1] == 42 {
                lemma_statement_end(s, i + 2, CommentState::Block);
            } else if b != 59 {
                lemma_statement_end(s, i + 1, CommentState::Normal);
            },
            CommentState::Line => lemma_statement_end(
                s,
                i + 1,
                if b == 10 {
                    CommentState::Normal
                } else {
                    CommentState::Line
                },
            ),
            CommentState::Block => lemma_statement_end(
                s,
                i + 1,
                if b == 42 {
                    CommentState::BlockStar
                } else {
                    CommentState::Block
                },
            ),
            CommentState::BlockStar => lemma_statement_end(
                s,
                i + 1,
                if b == 47 {
                    CommentState::Normal
                } else if b == 42 {
                    CommentState::BlockStar
                } else {
                    CommentState::Block
                },
            ),
        }
    }
}

/// The length of the first statement of `s`: up to and including the first
/// `;` outside comments, or `None` when there is no such `;`.
pub fn statement_len(s: &[u8]) -> (r: Option<usize>)
    ensures
        r matches Some(k) ==> statement_end(s@, 0, CommentState::Normal) == Some(k as int) && 0 < k
            <= s@.len(),
        r is None ==> statement_end(s@, 0, CommentState::Normal) is None,
{
    let mut i: usize = 0;
    let mut st = CommentState::Normal;
    while i < s.len()
        invariant
            i <= s@.len(),
            statement_end(s@, 0, CommentState::Normal) == statement_end(s@, i as int, st),
        decreases s@.len() - i,
    {
        let b = s[i];
        match st {
            CommentState::Normal => {
                if b == 37 {
                    st = CommentState::Line;
                    i = i + 1;
                } else if b == 47 && i + 1 < s.len() && s[i + 1] == 42 {
                    st = CommentState::Block;
                    i = i + 2;
                } else if b == 59 {
                    proof {
                        lemma_statement_end(s@, 0, CommentState::Normal);
                    }
                    return Some(i + 1);
                } else {
                    i = i + 1;
                }
            },
            CommentState::Line => {
                if b == 10 {
                    st = CommentState::Normal;
                }
                i = i + 1;
            },
            CommentState::Block => {
                if b == 42 {
                    st = CommentState::BlockStar;
                }
                i = i + 1;
            },
            CommentState::BlockStar => {
                st = if b == 47 {
                    CommentState::Normal
                } else if b == 42 {
                    CommentState::BlockStar
                } else {
                    CommentState::Block
                };
                i = i + 1;
            },
        }
    }
    None
}

/// The statements of a whole source: each runs up to and including its first
/// `;` outside comments; the last one may run to the end without one.
pub open spec fn statements(s: Seq<u8>) -> Seq<Seq<u8>>
    decreases s.len(),
{
    if s.len() == 0 {
        Seq::empty()
    } else {
        match statement_end(s, 0, CommentState::Normal) {
            Some(k) => if 0 < k <= s.len() {
                seq![s.subrange(0, k)] + statements(s.subrange(k, s.len() as int))
            } else {
                seq![s]
            },
            None => seq![s],
        }
    }
}

/// The byte strings of `ts`, one after the other.
pub open spec fn concat_bytes(ts: Seq<Seq<u8>>) -> Seq<u8>
    decreases ts.len(),
{
    if ts.len() == 0 {
        Seq::empty()
    } else {
        ts[0] + concat_bytes(ts.drop_first())
    }
}

/// The end of a statement depends on its own bytes only.
proof fn lemma_statement_end_prefix(s: Seq<u8>, i: int, st: CommentState, k: int)
    requires
        0 <= i,
        statement_end(s, i, st) == Some(k),
    ensures
        statement_end(s.subrange(0, k), i, st) == Some(k),
    decreases s.len() - i,
{
    lemma_statement_end(s, i, st);
    let t = s.subrange(0, k);
    let b = s[i];
    assert(t[i] == b);
    match st {
        CommentState::Normal => if b == 37 {
            lemma_statement_end_prefix(s, i + 1, CommentState::Line, k);
        } else if b == 47 && i + 1 < s.len() && s[i + 1] == 42 {
            lemma_statement_end(s, i + 2, CommentState::Block);
            assert(t[i + 1] == s[i + 1]);
            lemma_statement_end_prefix(s, i + 2, CommentState::Block, k);
        } else if b != 59 {
            lemma_statement_end(s, i + 1, CommentState::Normal);
            if i + 1 < k {
                assert(t[i + 1] == s[i + 1]);
            }
            lemma_statement_end_prefix(s, i + 1, CommentState::Normal, k);
        },
        CommentState::Line => lemma_statement_end_prefix(
            s,
            i + 1,
            if b == 10 {
                CommentState::Normal
            } else {
                CommentState::Line
            },
            k,
        ),
        CommentState::Block => lemma_statement_end_prefix(
            s,
            i + 1,
            if b == 42 {
                CommentState::BlockStar
            } else {
                CommentState::Block
            },
            k,
        ),
        CommentState::BlockStar => lemma_statement_end_prefix(
            s,
            i + 1,
            if b == 47 {
                CommentState::Normal
            } else if b == 42 {
                CommentState::BlockStar
            } else {
                CommentState::Block
            },
            k,
        ),
    }
}

/// Cutting a source into statements drops and repeats no byte: put back
/// together, the statements are the source. None is empty, and each but the
/// last ends just after its first `;` outside comments.
pub proof fn lemma_statements_cover(s: Seq<u8>)
    ensures
        concat_bytes(statements(s)) == s,
        forall|i: int| 0 <= i < statements(s).len() ==> #[trigger] statements(s)[i].len() > 0,
        forall|i: int|
            0 <= i < statements(s).len() - 1 ==> statement_end(#[trigger] statements(s)[i], 0, CommentState::Normal)
                == Some(statements(s)[i].len() as int),
    decreases s.len(),
{
    if s.len() > 0 {
        lemma_statement_end(s, 0, CommentState::Normal);
        match statement_end(s, 0, CommentState::Normal) {
            Some(k) => {
                let rest = s.subrange(k, s.len() as int);
                lemma_statements_cover(rest);
                lemma_statement_end_prefix(s, 0, CommentState::Normal, k);
                let ts = statements(s);
                assert(ts == seq![s.subrange(0, k)] + statements(rest));
                assert(ts.drop_first() =~= statements(rest));
                assert(s.subrange(0, k) + rest =~= s);
                assert(concat_bytes(ts) == ts[0] + concat_bytes(ts.drop_first()));
                assert forall|i: int| 0 <= i < ts.len() implies #[trigger] ts[i].len() > 0 by {
                    if i > 0 {
                        assert(ts[i] == statements(rest)[i - 1]);
                    }
                }
                assert forall|i: int| 0 <= i < ts.len() - 1 implies statement_end(#[trigger] ts[i], 0, CommentState::Normal)
                    == Some(ts[i].len() as int) by {
                    if i > 0 {
                        assert(ts[i] == statements(rest)[i - 1]);
                    }
                }
            },
            None => {
                let ts = statements(s);
                assert(ts.drop_first() =~= Seq::<Seq<u8>>::empty());
                assert(concat_bytes(ts) == ts[0] + concat_bytes(ts.drop_first()));
                assert(s + Seq::<u8>::empty() =~= s);
            },
        }
    } else {
        assert(statements(s) =~= Seq::<Seq<u8>>::empty());
        assert(s =~= Seq::<u8>::empty());
    }
}

/// Which items a model may still hold: items come as predicates, then
/// declarations, then constraints, then the solve item.
#[derive(Clone, Copy, PartialEq, Eq, Structural, Debug)]
pub enum Phase {
    /// Nothing but predicates read so far.
    Predicates,
    /// A declaration has been read.
    Declarations,
    /// A constraint has been read.
    Constraints,
    /// The solve item has been read.
    Solve,
}

/// The model of a model being read.
pub ghost struct SpecReader {
    pub names: Names,
    pub decls: Seq<SpecDeclaration>,
    pub constraints: Seq<SpecConstraint>,
    pub output: Seq<nat>,
    pub solve: Option<SpecSolve>,
    pub phase: Phase,
}

/// The kinds of failure while reading statements.
pub ghost enum SpecReadError {
    /// A statement is not valid UTF-8.
    Utf8,
    /// A second solve item.
    MultipleSolveItems,
    /// An item that does not parse, or that comes out of order.
    Syntax,
    /// A second declaration of the named name.
    Duplicate(Seq<char>),
}

/// Nothing read yet.
pub open spec fn reader_init() -> SpecReader {
    SpecReader {
        names: Seq::empty(),
        decls: Seq::empty(),
        constraints: Seq::empty(),
        output: Seq::empty(),
        solve: None,
        phase: Phase::Predicates,
    }
}

/// The statement `t` starts, after whitespace and comments, with word `w`.
pub open spec fn starts_with(t: Seq<u8>, w: Word) -> bool {
    word_end(t, ignored_end(t, 0), w) is Some
}

/// Reading one statement: an empty one changes nothing; a predicate is
/// checked and left out; a constraint, the solve item or a declaration is
/// added; an item out of order, or one that does not parse, is a syntax error.
#[verifier::opaque]
pub open spec fn read_step(m: SpecReader, t: Seq<u8>) -> Result<SpecReader, SpecReadError> {
    let p = ignored_end(t, 0);
    if !valid_utf8(t) {
        Err(SpecReadError::Utf8)
    } else if p >= t.len() {
        Ok(m)
    } else if starts_with(t, Word::Predicate) {
        if m.phase != Phase::Predicates {
            Err(SpecReadError::Syntax)
        } else if predicate_item(t, p) is Some {
            Ok(m)
        } else {
            Err(SpecReadError::Syntax)
        }
    } else if starts_with(t, Word::Constraint) {
        let r = constraint_item(t, p, m.names);
        if m.phase == Phase::Solve {
            Err(SpecReadError::Syntax)
        } else {
            match r.0 {
                Some((c, _)) => Ok(
                    SpecReader {
                        names: r.1,
                        decls: extend_uninit(m.decls, r.1.len()),
                        constraints: m.constraints.push(c),
                        phase: Phase::Constraints,
                        ..m
                    },
                ),
                None => Err(SpecReadError::Syntax),
            }
        }
    } else if starts_with(t, Word::Solve) {
        let r = solve_item(t, p, m.names);
        if m.solve is Some {
            Err(SpecReadError::MultipleSolveItems)
        } else {
            match r.0 {
                Some((v, _)) => Ok(
                    SpecReader {
                        names: r.1,
                        decls: extend_uninit(m.decls, r.1.len()),
                        solve: Some(v),
                        phase: Phase::Solve,
                        ..m
                    },
                ),
                None => Err(SpecReadError::Syntax),
            }
        }
    } else {
        let r = declaration(t, p, m.names);
        if m.phase == Phase::Constraints || m.phase == Phase::Solve {
            Err(SpecReadError::Syntax)
        } else {
            match r.0 {
                Some(((id, d, out), _)) => {
                    let decls = extend_uninit(m.decls, r.1.len());
                    if decls[id as int] is Uninit {
                        Ok(
                            SpecReader {
                                names: r.1,
                                decls: decls.update(id as int, d),
                                output: if out {
                                    m.output.push(id)
                                } else {
                                    m.output
                                },
                                phase: Phase::Declarations,
                                ..m
                            },
                        )
                    } else {
                        Err(SpecReadError::Duplicate(r.1[id as int]))
                    }
                },
                None => Err(SpecReadError::Syntax),
            }
        }
    }
}

/// Reading statements in order, stopping at the first failure.
pub open spec fn read_all(m: SpecReader, ts: Seq<Seq<u8>>) -> Result<SpecReader, SpecReadError>
    decreases ts.len(),
{
    if ts.len() == 0 {
        Ok(m)
    } else {
        match read_step(m, ts[0]) {
            Ok(m2) => read_all(m2, ts.drop_first()),
            Err(e) => Err(e),
        }
    }
}

/// `e` is an error of kind `k`.
pub open spec fn read_error_is(e: FznParseError, k: SpecReadError) -> bool {
    match k {
        SpecReadError::Utf8 => e is Utf8Error,
        SpecReadError::MultipleSolveItems => e is MultipleSolveItems,
        SpecReadError::Syntax => e is SyntaxError,
        SpecReadError::Duplicate(n) => e matches FznParseError::LinkError(
            crate::error::LinkError::DuplicateDefinition(d),
        ) && d@ == n,
    }
}

/// `std::str::from_utf8`: whether the bytes are valid UTF-8, with the error
/// that it reports otherwise.
#[verifier::external_body]
fn check_utf8(b: &[u8]) -> (r: Result<(), std::str::Utf8Error>)
    ensures
        r is Ok <==> valid_utf8(b@),
{
    match std::str::from_utf8(b) {
        Ok(_) => Ok(()),
        Err(e) => Err(e),
    }
}

/// A model being read, one statement at a time.
pub struct FznReader {
    names: NameStore,
    constraints: Vec<Constraint>,
    output: Vec<NameId>,
    solve: Option<SolveObjective>,
    phase: Phase,
}

impl FznReader {
    /// What has been read so far.
    pub closed spec fn model(&self) -> SpecReader {
        SpecReader {
            names: self.names.names(),
            decls: self.names.decls(),
            constraints: views(self.constraints@),
            output: self.output@.map_values(|i: NameId| i as nat),
            solve: match self.solve {
                Some(v) => Some(v@),
                None => None,
            },
            phase: self.phase,
        }
    }

    /// The name table is consistent.
    pub closed spec fn wf(&self) -> bool {
        self.names.wf()
    }

    /// A reader that has read nothing.
    pub fn new() -> (r: Self)
        ensures
            r.wf(),
            r.model() == reader_init(),
    {
        let r = FznReader {
            names: NameStore::new(),
            constraints: Vec::new(),
            output: Vec::new(),
            solve: None,
            phase: Phase::Predicates,
        };
        proof {
            assert(r.model().constraints =~= Seq::<SpecConstraint>::empty());
            assert(r.model().output =~= Seq::<nat>::empty());
        }
        r
    }

    /// Read one statement, as the statement scanner cuts them.
    pub fn read_statement(&mut self, t: &[u8]) -> (r: Result<(), FznParseError>)
        requires
            old(self).wf(),
        ensures
            match read_step(old(self).model(), t@) {
                Ok(m) => r is Ok && final(self).wf() && final(self).model() == m,
                Err(k) => r matches Err(e) && read_error_is(e, k),
            },
    {
        reveal(read_step);
        if let Err(e) = check_utf8(t) {
            return Err(FznParseError::Utf8Error(e));
        }
        let p = skip_ignored(t, 0);
        if p >= t.len() {
            return Ok(());
        }
        if match_word(t, p, Word::Predicate).is_some() {
            if self.phase != Phase::Predicates {
                return Err(
                    FznParseError::SyntaxError(
                        "predicate items must appear before declarations, constraints, and solve".to_owned(),
                    ),
                );
            }
            return match predicate_item_x(t, p) {
                Some(_) => Ok(()),
                None => Err(FznParseError::SyntaxError("invalid predicate item".to_owned())),
            };
        }
        if match_word(t, p, Word::Constraint).is_some() {
            if self.phase == Phase::Solve {
                return Err(
                    FznParseError::SyntaxError(
                        "constraint items must appear before the solve item".to_owned(),
                    ),
                );
            }
            let ghost before = self.model();
            return match constraint_item_x(t, p, &mut self.names) {
                Some((c, _)) => {
                    proof {
                        crate::intermediate::lemma_views_push(self.constraints@, c);
                    }
                    self.constraints.push(c);
                    self.phase = Phase::Constraints;
                    proof {
                        assert(self.model().output =~= before.output);
                    }
                    Ok(())
                },
                None => Err(FznParseError::SyntaxError("invalid constraint item".to_owned())),
            };
        }
        if match_word(t, p, Word::Solve).is_some() {
            if self.solve.is_some() {
                return Err(FznParseError::MultipleSolveItems);
            }
            let ghost before = self.model();
            return match solve_item_x(t, p, &mut self.names) {
                Some((v, _)) => {
                    self.solve = Some(v);
                    self.phase = Phase::Solve;
                    proof {
                        assert(self.model().output =~= before.output);
                        assert(self.model().constraints =~= before.constraints);
                    }
                    Ok(())
                },
                None => Err(FznParseError::SyntaxError("invalid solve item".to_owned())),
            };
        }
        if self.phase == Phase::Constraints || self.phase == Phase::Solve {
            return Err(
                FznParseError::SyntaxError(
                    "declarations must appear before constraints and the solve item".to_owned(),
                ),
            );
        }
        let ghost before = self.model();
        match declaration_x(t, p, &mut self.names) {
            Some(((id, d, out), _)) => {
                let ghost mid = self.model();
                match self.names.define_name(id, d) {
                    Ok(()) => {
                        if out {
                            self.output.push(id);
                        }
                        self.phase = Phase::Declarations;
                        proof {
                            assert(self.model().constraints =~= before.constraints);
                            if out {
                                assert(self.model().output =~= before.output.push(id as nat));
                            } else {
                                assert(self.model().output =~= before.output);
                            }
                        }
                        Ok(())
                    },
                    Err(e) => Err(FznParseError::LinkError(e)),
                }
            },
            None => Err(FznParseError::SyntaxError("invalid declaration item".to_owned())),
        }
    }

    /// The identifiers that an interner takes, in the order `model_ids`
    /// gives: those of annotations and constraint predicates, never the names
    /// of variables and arrays.
    pub fn identifiers(&self) -> (r: Vec<String>)
        requires
            self.wf(),
        ensures
            views(r@) == model_ids(self.model()),
    {
        let mut out: Vec<String> = Vec::new();
        proof {
            assert(views(out@) =~= Seq::<Seq<char>>::empty());
        }
        names_ids_x(&self.names, &mut out);
        constraints_ids_x(&self.constraints, &mut out);
        solve_ids_x(&self.solve, &mut out);
        uninit_ids_x(&self.names, &mut out);
        proof {
            assert(views(out@) =~= model_ids(self.model()));
        }
        out
    }

    /// Finish reading with the identifiers interned: `ids` holds what the
    /// interner made of each of `identifiers()`, in order. The first
    /// identifier the interner refused is reported with the interner's
    /// message; otherwise the interned identifiers are put in place and
    /// reading finishes.
    pub fn finish_interned(self, ids: Vec<Result<String, String>>) -> (r: Result<FlatZinc, FznParseError>)
        requires
            self.wf(),
            ids@.len() == model_ids(self.model()).len(),
        ensures
            first_refused(ids@) >= 0 ==> (r matches Err(
                FznParseError::LinkError(LinkError::IdentifierError { ident, err }),
            ) && ident@ == model_ids(self.model())[first_refused(ids@)] && Err::<String, String>(err)
                == ids@[first_refused(ids@)]),
            first_refused(ids@) < 0 ==> match finish_spec_with(
                model_rn(self.model(), accepted(ids@)),
                model_atoms(self.model(), accepted(ids@)),
            ) {
                Ok(p) => r matches Ok(f) && f@ == p,
                Err(k) => r matches Err(e) && parse_error_is(e, k),
            },
    {
        match find_refused(&ids) {
            Some(i) => {
                let all = self.identifiers();
                let ident = all[i].clone();
                proof {
                    crate::intern::lemma_first_refused(ids@);
                }
                let err = match &ids[i] {
                    Err(e) => e.clone(),
                    Ok(_) => {
                        proof {
                            assert(false);
                        }
                        String::new()
                    },
                };
                proof {
                    assert(views(all@)[i as int] == all@[i as int]@);
                }
                Err(FznParseError::LinkError(LinkError::IdentifierError { ident, err }))
            },
            None => {
                let ghost m = self.model();
                let vals = accepted_values(ids);
                let mut undeclared: Vec<String> = Vec::new();
                uninit_ids_x(&self.names, &mut undeclared);
                let mut apos = vals.len() - undeclared.len();
                let atoms = atoms_x(&self.names, &vals, &mut apos);
                let FznReader { mut names, constraints, output, solve, phase } = self;
                let mut pos: usize = 0;
                rn_names_x(&mut names, &vals, &mut pos);
                let constraints = rn_constraints_x(&constraints, &vals, &mut pos);
                let solve = rn_opt_solve_x(&solve, &vals, &mut pos);
                let rd = FznReader { names, constraints, output, solve, phase };
                proof {
                    assert(rd.model() =~= model_rn(m, accepted(ids@)));
                }
                rd.finish_with_atoms(atoms)
            },
        }
    }

    /// Finish reading as `finish` does, an undeclared name in an annotation
    /// becoming the atom of its slot in `atoms`.
    fn finish_with_atoms(self, atoms: Vec<String>) -> (r: Result<FlatZinc, FznParseError>)
        requires
            self.wf(),
            atoms@.len() == self.model().names.len(),
        ensures
            match finish_spec_with(self.model(), views(atoms@)) {
                Ok(p) => r matches Ok(f) && f@ == p,
                Err(k) => r matches Err(e) && parse_error_is(e, k),
            },
    {
        let FznReader { names, constraints, output, solve, phase: _ } = self;
        match solve {
            None => Err(FznParseError::MissingSolveItem),
            Some(s) => {
                proof {
                    assert(output@.map_values(|i: NameId| i as nat) == self.model().output);
                }
                match link_with_atoms(names, atoms, constraints, output, s, "1.0".to_owned()) {
                    Ok(f) => Ok(f),
                    Err(e) => Err(FznParseError::LinkError(e)),
                }
            },
        }
    }

    /// Finish reading: a model needs a solve item, and its names are then
    /// linked.
    pub fn finish(self) -> (r: Result<FlatZinc, FznParseError>)
        requires
            self.wf(),
        ensures
            match finish_spec(self.model()) {
                Ok(p) => r matches Ok(f) && f@ == p,
                Err(k) => r matches Err(e) && parse_error_is(e, k),
            },
    {
        let FznReader { names, constraints, output, solve, phase: _ } = self;
        match solve {
            None => Err(FznParseError::MissingSolveItem),
            Some(s) => {
                proof {
                    assert(output@.map_values(|i: NameId| i as nat) == self.model().output);
                }
                match link(names, constraints, output, s, "1.0".to_owned()) {
                    Ok(f) => Ok(f),
                    Err(e) => Err(FznParseError::LinkError(e)),
                }
            },
        }
    }
}

/// The kinds of failure of reading a whole model.
pub ghost enum SpecParseError {
    /// A statement failed.
    Read(SpecReadError),
    /// There is no solve item.
    MissingSolveItem,
    /// Linking the names failed.
    Link(SpecLinkError),
}

/// `e` is an error of kind `k`.
pub open spec fn parse_error_is(e: FznParseError, k: SpecParseError) -> bool {
    match k {
        SpecParseError::Read(r) => read_error_is(e, r),
        SpecParseError::MissingSolveItem => e is MissingSolveItem,
        SpecParseError::Link(l) => e matches FznParseError::LinkError(x) && link_error_is(x, l),
    }
}

/// The end of reading: the model needs a solve item; then its names are
/// linked.
pub open spec fn finish_spec(m: SpecReader) -> Result<PFlatZinc, SpecParseError> {
    match m.solve {
        None => Err(SpecParseError::MissingSolveItem),
        Some(sv) => match link_model(m.names, m.decls, m.constraints, m.output, sv.method, sv.ann, "1.0"@) {
            Ok(p) => Ok(p),
            Err(k) => Err(SpecParseError::Link(k)),
        },
    }
}

/// The end of reading as `finish_spec`, an undeclared name in an annotation
/// becoming the atom of its slot in `atoms`.
pub open spec fn finish_spec_with(m: SpecReader, atoms: Seq<Seq<char>>) -> Result<PFlatZinc, SpecParseError> {
    match m.solve {
        None => Err(SpecParseError::MissingSolveItem),
        Some(sv) => match link_model_with(m.names, m.decls, atoms, m.constraints, m.output, sv.method, sv.ann, "1.0"@) {
            Ok(p) => Ok(p),
            Err(k) => Err(SpecParseError::Link(k)),
        },
    }
}

/// Reading a whole `.fzn` source: its statements in order, then the end of
/// reading.
pub open spec fn parse_fzn(s: Seq<u8>) -> Result<PFlatZinc, SpecParseError> {
    match read_all(reader_init(), statements(s)) {
        Ok(m) => finish_spec(m),
        Err(k) => Err(SpecParseError::Read(k)),
    }
}

proof fn lemma_statements_step(s: Seq<u8>, pos: int, k: int)
    requires
        0 <= pos < s.len(),
        0 < k <= s.len() - pos,
        statement_end(s.subrange(pos, s.len() as int), 0, CommentState::Normal) == Some(k)
            || (statement_end(s.subrange(pos, s.len() as int), 0, CommentState::Normal) is None && k
            == s.len() - pos),
    ensures
        statements(s.subrange(pos, s.len() as int)) == seq![s.subrange(pos, pos + k)] + statements(
            s.subrange(pos + k, s.len() as int),
        ),
{
    let x = s.subrange(pos, s.len() as int);
    assert(x.subrange(0, k) =~= s.subrange(pos, pos + k));
    assert(x.subrange(k, x.len() as int) =~= s.subrange(pos + k, s.len() as int));
    if statement_end(x, 0, CommentState::Normal) is None {
        assert(s.subrange(pos + k, s.len() as int) =~= Seq::<u8>::empty());
        assert(statements(Seq::<u8>::empty()) =~= Seq::<Seq<u8>>::empty());
        assert(x =~= s.subrange(pos, pos + k));
        assert(seq![x] + Seq::<Seq<u8>>::empty() =~= seq![x]);
    }
}

impl FlatZinc {
    /// Parse a `.fzn` source.
    pub fn from_fzn(source: &[u8]) -> (r: Result<FlatZinc, FznParseError>)
        ensures
            match parse_fzn(source@) {
                Ok(p) => r matches Ok(f) && f@ == p,
                Err(k) => r matches Err(e) && parse_error_is(e, k),
            },
    {
        let mut reader = FznReader::new();
        let mut pos: usize = 0;
        proof {
            assert(source@.subrange(0, source@.len() as int) =~= source@);
        }
        while pos < source.len()
            invariant
                pos <= source@.len(),
                reader.wf(),
                read_all(reader_init(), statements(source@)) == read_all(
                    reader.model(),
                    statements(source@.subrange(pos as int, source@.len() as int)),
                ),
            decreases source@.len() - pos,
        {
            let rest = vstd::slice::slice_subrange(source, pos, source.len());
            let k = match statement_len(rest) {
                Some(k) => k,
                None => rest.len(),
            };
            let t = vstd::slice::slice_subrange(source, pos, pos + k);
            proof {
                lemma_statements_step(source@, pos as int, k as int);
                let ts = statements(source@.subrange(pos as int, source@.len() as int));
                assert(ts[0] == t@);
                assert(ts.drop_first() =~= statements(source@.subrange(pos + k, source@.len() as int)));
            }
            match reader.read_statement(t) {
                Ok(()) => {},
                Err(e) => return Err(e),
            }
            pos = pos + k;
        }
        proof {
            assert(source@.subrange(pos as int, source@.len() as int) =~= Seq::<u8>::empty());
        }
        reader.finish()
    }
}

/// Reading statements in two parts is reading them at once: the second part
/// is read from the model that the first part left, and a failure in the
/// first part is the failure of the whole.
pub proof fn lemma_read_all_append(m: SpecReader, a: Seq<Seq<u8>>, b: Seq<Seq<u8>>)
    ensures
        read_all(m, a + b) == match read_all(m, a) {
            Ok(m2) => read_all(m2, b),
            Err(e) => Err(e),
        },
    decreases a.len(),
{
    if a.len() == 0 {
        assert(a + b =~= b);
    } else {
        assert((a + b)[0] == a[0]);
        assert((a + b).drop_first() =~= a.drop_first() + b);
        match read_step(m, a[0]) {
            Ok(m2) => lemma_read_all_append(m2, a.drop_first(), b),
            Err(_) => {},
        }
    }
}

/// A statement that holds only whitespace and comments changes nothing.
pub proof fn lemma_blank_statement(m: SpecReader, t: Seq<u8>)
    requires
        valid_utf8(t),
        ignored_end(t, 0) >= t.len(),
    ensures
        read_step(m, t) == Ok::<SpecReader, SpecReadError>(m),
{
    reveal(read_step);
}

/// Items come in order: a predicate only before any other item, a
/// declaration only before constraints and the solve item, a constraint only
/// before the solve item, and one solve item at most.
pub proof fn lemma_item_order(m: SpecReader, t: Seq<u8>)
    requires
        valid_utf8(t),
        ignored_end(t, 0) < t.len(),
    ensures
        m.phase != Phase::Predicates && starts_with(t, Word::Predicate) ==> read_step(m, t)
            == Err::<SpecReader, SpecReadError>(SpecReadError::Syntax),
        m.phase == Phase::Solve && !starts_with(t, Word::Predicate) && starts_with(t, Word::Constraint)
            ==> read_step(m, t) == Err::<SpecReader, SpecReadError>(SpecReadError::Syntax),
        m.solve is Some && !starts_with(t, Word::Predicate) && !starts_with(t, Word::Constraint)
            && starts_with(t, Word::Solve) ==> read_step(m, t) == Err::<SpecReader, SpecReadError>(
            SpecReadError::MultipleSolveItems,
        ),
        (m.phase == Phase::Constraints || m.phase == Phase::Solve) && !starts_with(t, Word::Predicate)
            && !starts_with(t, Word::Constraint) && !starts_with(t, Word::Solve) ==> read_step(m, t)
            == Err::<SpecReader, SpecReadError>(SpecReadError::Syntax),
{
    reveal(read_step);
}

/// A model without a solve item is refused, whatever else it holds.
pub proof fn lemma_solve_required(m: SpecReader)
    requires
        m.solve is None,
    ensures
        finish_spec(m) == Err::<PFlatZinc, SpecParseError>(SpecParseError::MissingSolveItem),
{
}

} // verus!
