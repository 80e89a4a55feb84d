//! Redirections whose operator would run into its target.
//!
//! The printer writes the target of a redirection right behind its operator. In
//! front of a process substitution some operators would then read as longer
//! ones: `< <(a)` as `<<(a)`, a here-document. A tree with such a redirection is
//! not printed.

use vstd::prelude::*;
use vstd::string::*;
use crate::ast::{Command, CommandView, IfClause, IfClauseView, ProcOperator, RedirOperator,
    Redirect, RedirectView, Stmt, StmtView, Word, WordPart, WordPartView, WordView, redirect_views,
    stmt_views, word_part_views};
use crate::text::char_at;

verus! {

/// The direction of the process substitution that the text of `w` starts with:
/// true for `<(`, false for `>(`.
pub open spec fn substitution(w: WordView) -> Option<bool> {
    if w.parts.len() == 0 {
        None
    } else {
        match w.parts[0] {
            WordPartView::Lit(l) if l.value.len() >= 2 && l.value[1] == '(' => if l.value[0] == '<' {
                Some(true)
            } else if l.value[0] == '>' {
                Some(false)
            } else {
                None
            },
            WordPartView::ProcSubst(ps) => Some(ps.op == ProcOperator::CmdIn),
            _ => None,
        }
    }
}

/// Whether the operator `op` would read as a longer one in front of `w`.
pub open spec fn runs_into(op: RedirOperator, w: WordView) -> bool {
    match op {
        RedirOperator::RdrIn => substitution(w) is Some,
        RedirOperator::RdrOut | RedirOperator::RdrAll => substitution(w) == Some(false),
        _ => false,
    }
}

/// Whether the operator of `r` does not run into its target.
pub open spec fn apart_redir(r: RedirectView) -> bool {
    r.word matches Some(w) ==> !runs_into(r.op, w)
}

/// Whether none of the operators of `redirs` runs into its target.
pub open spec fn apart_redirs(redirs: Seq<RedirectView>) -> bool {
    forall|i: int| 0 <= i < redirs.len() ==> apart_redir(#[trigger] redirs[i])
}

/// The same of all redirections of `s`.
pub open spec fn apart_stmt(s: StmtView) -> bool
    decreases s, 0int,
{
    &&& apart_redirs(s.redirs)
    &&& s.cmd matches Some(cmd) ==> apart_command(cmd)
}

/// The same of all redirections in `cmd`.
pub open spec fn apart_command(cmd: CommandView) -> bool
    decreases cmd, 0int,
{
    match cmd {
        CommandView::Binary(x) => apart_stmt(x.x) && apart_stmt(x.y),
        CommandView::Block(x) => apart_list(x.stmts),
        CommandView::Subshell(x) => apart_list(x.stmts),
        CommandView::If(x) => apart_if(*x),
        CommandView::While(x) => apart_list(x.cond) && apart_list(x.do_),
        CommandView::For(x) => apart_list(x.do_),
        _ => true,
    }
}

/// The same of all redirections in an `if` and its branches.
pub open spec fn apart_if(x: IfClauseView) -> bool
    decreases x, 0int,
{
    apart_list(x.cond) && apart_list(x.then_) && apart_tail(x.else_)
}

/// The same of all redirections in the `elif` and `else` branches.
pub open spec fn apart_tail(tail: Option<Box<IfClauseView>>) -> bool
    decreases tail, 0int,
{
    match tail {
        None => true,
        Some(x) => apart_if(*x),
    }
}

/// The same of all redirections in `stmts`.
pub open spec fn apart_list(stmts: Seq<StmtView>) -> bool
    decreases stmts, 0int,
{
    stmts.len() == 0 || (apart_stmt(stmts[0]) && apart_list(stmts.drop_first()))
}

/// The direction of the process substitution that the text of `w` starts with.
fn opens_substitution(w: &Word) -> (dir: Option<bool>)
    ensures
        dir == substitution(w@),
{
    assert(w@.parts =~= word_part_views(w.parts@));
    if w.parts.len() == 0 {
        return None;
    }
    match &w.parts[0] {
        WordPart::Lit(l) => {
            if char_at(&l.value, 1) != Some('(') {
                None
            } else if char_at(&l.value, 0) == Some('<') {
                Some(true)
            } else if char_at(&l.value, 0) == Some('>') {
                Some(false)
            } else {
                None
            }
        },
        WordPart::ProcSubst(ps) => Some(matches!(ps.op, ProcOperator::CmdIn)),
        _ => None,
    }
}

fn is_apart_redir(r: &Redirect) -> (yes: bool)
    ensures
        yes == apart_redir(r@),
{
    match &r.word {
        Some(w) => match r.op {
            RedirOperator::RdrIn => opens_substitution(w).is_none(),
            RedirOperator::RdrOut | RedirOperator::RdrAll => opens_substitution(w) != Some(false),
            _ => true,
        },
        None => true,
    }
}

fn are_apart_redirs(redirs: &Vec<Redirect>) -> (yes: bool)
    ensures
        yes == apart_redirs(redirect_views(redirs@)),
{
    let mut i: usize = 0;
    while i < redirs.len()
        invariant
            i <= redirs@.len(),
            forall|k: int| 0 <= k < i ==> apart_redir(#[trigger] redirect_views(redirs@)[k]),
        decreases redirs@.len() - i,
    {
        assert(redirect_views(redirs@)[i as int] == redirs@[i as int]@);
        if !is_apart_redir(&redirs[i]) {
            return false;
        }
        i += 1;
    }
    true
}

fn is_apart_stmt(s: &Stmt) -> (yes: bool)
    ensures
        yes == apart_stmt(s@),
    decreases s, 0int,
{
    assert(s@.redirs =~= redirect_views(s.redirs@));
    if !are_apart_redirs(&s.redirs) {
        return false;
    }
    match &s.cmd {
        Some(cmd) => is_apart_command(cmd),
        None => true,
    }
}

fn is_apart_command(cmd: &Command) -> (yes: bool)
    ensures
        yes == apart_command(cmd@),
    decreases cmd, 0int,
{
    match cmd {
        Command::Binary(x) => is_apart_stmt(&x.x) && is_apart_stmt(&x.y),
        Command::Block(x) => {
            assert(x@.stmts =~= stmt_views(x.stmts@));
            are_apart(&x.stmts)
        },
        Command::Subshell(x) => {
            assert(x@.stmts =~= stmt_views(x.stmts@));
            are_apart(&x.stmts)
        },
        Command::If(x) => is_apart_if(x),
        Command::While(x) => {
            assert(x@.cond =~= stmt_views(x.cond@));
            assert(x@.do_ =~= stmt_views(x.do_@));
            are_apart(&x.cond) && are_apart(&x.do_)
        },
        Command::For(x) => {
            assert(x@.do_ =~= stmt_views(x.do_@));
            are_apart(&x.do_)
        },
        _ => true,
    }
}

fn is_apart_if(x: &IfClause) -> (yes: bool)
    ensures
        yes == apart_if(x@),
    decreases x, 0int,
{
    match x {
        IfClause { cond, then: body, else_, .. } => {
            assert(x@.cond =~= stmt_views(cond@));
            assert(x@.then_ =~= stmt_views(body@));
            if !are_apart(cond) || !are_apart(body) {
                return false;
            }
            match else_ {
                Some(tail) => is_apart_if(tail),
                None => true,
            }
        },
    }
}

/// Whether none of the operators of the redirections in `stmts` runs into its
/// target.
pub fn are_apart(stmts: &Vec<Stmt>) -> (yes: bool)
    ensures
        yes == apart_list(stmt_views(stmts@)),
    decreases stmts, 0int,
{
    let ghost all = stmt_views(stmts@);
    let mut i: usize = 0;
    assert(all.skip(0) =~= all);
    while i < stmts.len()
        invariant
            i <= stmts@.len(),
            all == stmt_views(stmts@),
            apart_list(all) == apart_list(all.skip(i as int)),
        decreases stmts@.len() - i,
    {
        proof {
            let rest = all.skip(i as int);
            assert(rest[0] == stmts@[i as int]@);
            assert(rest.drop_first() =~= all.skip(i + 1));
        }
        if !is_apart_stmt(&stmts[i]) {
            return false;
        }
        i += 1;
    }
    true
}

// ---------------------------------------------------------------------------
// Laws
// ---------------------------------------------------------------------------

/// An operator runs into its target exactly where `<` stands before a process
/// substitution, or `>` or `&>` before one that starts with `>`.
pub proof fn law_only_process_substitutions_run_in(r: RedirectView, w: WordView, t: Seq<char>)
    requires
        r.word == Some(w),
        w.parts.len() == 1,
        w.parts[0] matches WordPartView::Lit(l) && l.value == t,
    ensures
        !apart_redir(r) <==> {
            &&& t.len() >= 2
            &&& t[1] == '('
            &&& {
                ||| t[0] == '>' && (r.op is RdrIn || r.op is RdrOut || r.op is RdrAll)
                ||| t[0] == '<' && r.op is RdrIn
            }
        },
{
}

/// Statements one after the other are apart exactly when each of them is.
pub proof fn law_statements_are_apart_one_by_one(a: Seq<StmtView>, b: Seq<StmtView>)
    ensures
        apart_list(a + b) == (apart_list(a) && apart_list(b)),
    decreases a.len(),
{
    if a.len() == 0 {
        assert(a + b =~= b);
    } else {
        assert((a + b).drop_first() =~= a.drop_first() + b);
        law_statements_are_apart_one_by_one(a.drop_first(), b);
    }
}

} // verus!
