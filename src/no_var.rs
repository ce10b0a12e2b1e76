use crate::context::{Context, add_diagnostic_result};
use crate::source::Span;
use std::sync::Arc;
use vstd::prelude::*;

verus! {

/// The message of the rule's diagnostics.
pub const MESSAGE: &'static str = "`var` keyword is not allowed.";

/// The code of the rule.
pub const CODE: &'static str = "no-var";

/// The keyword of a variable declaration.
#[derive(Clone, Copy, Debug, PartialEq, Eq, Structural)]
pub enum VarDeclKind {
    Var,
    Let,
    Const,
}

/// A variable declaration of the syntax tree: where it stands and its keyword.
#[derive(Clone, Copy, Debug, PartialEq, Eq, Structural)]
pub struct VarDecl {
    pub span: Span,
    pub kind: VarDeclKind,
}

/// `new` is `old` after the rule saw `var_decl`: a `var` declaration is
/// reported at its span, any other leaves the context as it was.
pub open spec fn visit_result(old: Context, new: Context, var_decl: VarDecl) -> bool {
    if var_decl.kind == VarDeclKind::Var {
        add_diagnostic_result(old, new, var_decl.span, CODE@, MESSAGE@)
    } else {
        new == old
    }
}

/// `states` runs from `old` to `new`, one visit of a declaration of `decls`
/// per step.
pub open spec fn lint_steps(states: Seq<Context>, decls: Seq<VarDecl>) -> bool {
    &&& states.len() == decls.len() + 1
    &&& forall|i: int|
        0 <= i < decls.len() ==> visit_result(states[i], #[trigger] states[i + 1], decls[i])
}

/// Reports every declaration that uses the `var` keyword.
#[derive(Debug)]
pub struct NoVar;

impl NoVar {
    /// The rule, shared.
    pub fn new() -> (r: Arc<Self>) {
        Arc::new(NoVar)
    }

    /// The groups the rule belongs to.
    pub fn tags(&self) -> (r: &'static [&'static str])
        ensures
            r@.len() == 1,
            r@[0]@ == "recommended"@,
    {
        &["recommended"]
    }

    /// The code of the rule's diagnostics.
    pub fn code(&self) -> (r: &'static str)
        ensures
            r@ == CODE@,
    {
        CODE
    }

    /// Runs the rule over the variable declarations of a program, given in
    /// the order in which a walk of its syntax tree meets them.
    pub fn lint_program(&self, context: &mut Context, var_decls: &Vec<VarDecl>)
        requires
            old(context).wf(),
        ensures
            final(context).wf(),
            exists|states: Seq<Context>|
                lint_steps(states, var_decls@) && states[0] == *old(context) && states.last()
                    == *final(context),
    {
        let ghost states: Seq<Context> = seq![*context];
        let mut i: usize = 0;
        while i < var_decls.len()
            invariant
                i <= var_decls@.len(),
                context.wf(),
                states.len() == i + 1,
                states[0] == *old(context),
                states.last() == *context,
                forall|k: int|
                    0 <= k < i ==> visit_result(states[k], #[trigger] states[k + 1], var_decls@[k]),
            decreases var_decls@.len() - i,
        {
            let mut visitor = NoVarVisitor::new(context);
            visitor.visit_var_decl(&var_decls[i]);
            proof {
                states = states.push(*context);
            }
            i = i + 1;
        }
        assert(lint_steps(states, var_decls@));
    }
}

/// Walks a program for the rule, reporting into `context`.
pub struct NoVarVisitor<'c> {
    pub context: &'c mut Context,
}

impl<'c> NoVarVisitor<'c> {
    /// A visitor that reports into `context`.
    pub fn new(context: &'c mut Context) -> (r: Self)
        ensures
            *r.context == *old(context),
            *final(context) == *final(r.context),
    {
        Self { context }
    }

    /// Reports `var_decl` where it uses the `var` keyword.
    pub fn visit_var_decl(&mut self, var_decl: &VarDecl)
        requires
            old(self).context.wf(),
        ensures
            final(self).context.wf(),
            visit_result(*old(self).context, *final(self).context, *var_decl),
            *final(final(self).context) == *final(old(self).context),
    {
        match var_decl.kind {
            VarDeclKind::Var => self.context.add_diagnostic(var_decl.span, CODE, MESSAGE),
            _ => {},
        }
    }
}

} // verus!
