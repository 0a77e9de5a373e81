//! The visitor's bookkeeping: collecting raw import strings and the
//! diagnostics for call-like imports whose argument cannot be resolved.
//!
//! Walking the syntax tree is outside work; the functions here take what a
//! call expression carries, as plain data, and decide what it contributes.

use vstd::prelude::*;

verus! {

/// Which call-like import form was seen.
#[derive(Clone, Copy, PartialEq, Eq, Structural, Debug)]
pub enum CallLikeKind {
    /// A dynamic `import(...)` expression.
    Import,
    /// A `require(...)` call.
    Require,
}

/// What the first argument of a call-like import turned out to be.
pub enum CallLikeArgument {
    /// A string literal: the one resolvable shape.
    StringLiteral(Vec<char>),
    /// A literal of another kind, described by name.
    NonStringLiteral(Vec<char>),
    /// An identifier: a dynamic import that cannot be resolved.
    Dynamic,
    /// Any other expression, described by name.
    Other(Vec<char>),
}

/// A diagnostic attached to the file being visited.
pub enum VisitorDiagnostic {
    /// The call did not have exactly one argument.
    WrongArgumentCount { kind: CallLikeKind, count: usize },
    /// The single argument was a literal, but not a string.
    NonStringLiteralArgument { kind: CallLikeKind, literal_kind: Vec<char> },
    /// The single argument was an identifier.
    DynamicArgument { kind: CallLikeKind },
    /// The single argument was some other expression.
    NonLiteralArgument { kind: CallLikeKind, expression_kind: Vec<char> },
}

/// The raw import strings of one source file, with the diagnostics
/// gathered while collecting them.
pub struct ImportVisitor {
    pub errors: Vec<VisitorDiagnostic>,
    pub dependencies: Vec<Vec<char>>,
}

impl ImportVisitor {
    /// An empty collection.
    pub fn new() -> (r: ImportVisitor)
        ensures
            r.errors@ == Seq::<VisitorDiagnostic>::empty(),
            r.dependencies@ == Seq::<Vec<char>>::empty(),
    {
        ImportVisitor { errors: Vec::new(), dependencies: Vec::new() }
    }

    /// Record one raw import string.
    pub fn add_dependency(&mut self, dependency: Vec<char>)
        ensures
            final(self).dependencies@ == old(self).dependencies@.push(dependency),
            final(self).errors@ == old(self).errors@,
    {
        self.dependencies.push(dependency);
    }

    /// Record what a call-like import contributes: its string argument as
    /// a dependency, or one diagnostic saying why it resolves to nothing.
    ///
    /// `arg_count` is how many arguments the call had; `first` is its
    /// first argument, required when there is one.
    pub fn record_call_like(
        &mut self,
        kind: CallLikeKind,
        arg_count: usize,
        first: Option<CallLikeArgument>,
    )
        requires
            arg_count == 1 ==> first is Some,
        ensures
            arg_count != 1 ==> final(self).dependencies@ == old(self).dependencies@
                && final(self).errors@ == old(self).errors@.push(
                VisitorDiagnostic::WrongArgumentCount { kind, count: arg_count },
            ),
            arg_count == 1 ==> match first {
                Some(arg) => match arg {
                    CallLikeArgument::StringLiteral(s) => final(self).dependencies@ == old(self).dependencies@.push(s)
                        && final(self).errors@ == old(self).errors@,
                    CallLikeArgument::NonStringLiteral(lk) => final(self).dependencies@ == old(self).dependencies@
                        && final(self).errors@ == old(self).errors@.push(
                        VisitorDiagnostic::NonStringLiteralArgument { kind, literal_kind: lk },
                    ),
                    CallLikeArgument::Dynamic => final(self).dependencies@ == old(self).dependencies@
                        && final(self).errors@ == old(self).errors@.push(
                        VisitorDiagnostic::DynamicArgument { kind },
                    ),
                    CallLikeArgument::Other(ek) => final(self).dependencies@ == old(self).dependencies@
                        && final(self).errors@ == old(self).errors@.push(
                        VisitorDiagnostic::NonLiteralArgument { kind, expression_kind: ek },
                    ),
                },
                None => false,
            },
    {
        if arg_count != 1 {
            self.errors.push(VisitorDiagnostic::WrongArgumentCount { kind, count: arg_count });
        } else {
            match first {
                Some(CallLikeArgument::StringLiteral(s)) => {
                    self.dependencies.push(s);
                },
                Some(CallLikeArgument::NonStringLiteral(lk)) => {
                    self.errors.push(
                        VisitorDiagnostic::NonStringLiteralArgument { kind, literal_kind: lk },
                    );
                },
                Some(CallLikeArgument::Dynamic) => {
                    self.errors.push(VisitorDiagnostic::DynamicArgument { kind });
                },
                Some(CallLikeArgument::Other(ek)) => {
                    self.errors.push(
                        VisitorDiagnostic::NonLiteralArgument { kind, expression_kind: ek },
                    );
                },
                None => {
                    proof {
                        assert(false);
                    }
                },
            }
        }
    }
}

} // verus!
