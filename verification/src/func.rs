use vstd::prelude::*;
use crate::expr::{Expr, SExpr, LineNo, views};
use crate::hir::{FuncCall, FuncDecl};
use crate::errors::{Error, ErrorCode, StdResult};
use crate::names::{ModuleName, FuncName, join_spec};
use crate::context::usize_to_string;

verus! {

/// The error that an expression was expected to be an identifier.
pub open spec fn is_unexpected_error(err: Error, lno: Option<LineNo>) -> bool {
    &&& err.lno == (match lno { Some(l) => l, None => (0usize, 0usize) })
    &&& err.variant is ErrorCode
    &&& err.variant->ErrorCode_0 is UnexpectedExprType
}

/// The identifier `val` holds, or an error with `message` when it is no identifier.
pub fn unwrap_ident(lno: Option<LineNo>, val: &Expr, message: String) -> (r: StdResult<String>)
    ensures
        r is Ok <==> val@ is Ident,
        r matches Ok(s) ==> val@ == SExpr::Ident(s@),
        r matches Err(es) ==> es@.len() == 1 && is_unexpected_error(es@[0], lno),
{
    match val {
        Expr::Ident(m) => Ok(m.clone()),
        _ => {
            let mut es: Vec<Error> = Vec::new();
            es.push(
                Error::new_from_code(
                    lno,
                    ErrorCode::UnexpectedExprType { message, expected: String::from_str("Ident"), got: val.variant_name() },
                ),
            );
            Err(es)
        },
    }
}

/// The errors that the module `module` is unknown.
pub fn could_not_find_module(lno: Option<LineNo>, module: &ModuleName) -> (r: Vec<Error>)
    ensures
        r@.len() == 1,
        r@[0].lno == (match lno { Some(l) => l, None => (0usize, 0usize) }),
        r@[0].variant matches crate::errors::ErrorVariant::ErrorCode(ErrorCode::CouldNotFindModule { module: m })
            && m@ == join_spec(module@, "::"@),
{
    let mut es: Vec<Error> = Vec::new();
    es.push(Error::new_from_code(lno, ErrorCode::CouldNotFindModule { module: module.to_string() }));
    es
}

/// The errors that the module `module` has no function `function`.
pub fn could_not_find_function(lno: Option<LineNo>, module: &ModuleName, function: &FuncName) -> (r: Vec<Error>)
    ensures
        r@.len() == 1,
        r@[0].lno == (match lno { Some(l) => l, None => (0usize, 0usize) }),
        r@[0].variant matches crate::errors::ErrorVariant::ErrorCode(ErrorCode::CouldNotFindFunction { module: m, func: f })
            && m@ == join_spec(module@, "::"@) && f@ == function@,
{
    let mut es: Vec<Error> = Vec::new();
    es.push(
        Error::new_from_code(lno, ErrorCode::CouldNotFindFunction { module: module.to_string(), func: function.to_string() }),
    );
    es
}

impl FuncCall {
    /// The name of the called function.
    pub fn get_ident(&self) -> (r: StdResult<String>)
        ensures
            r is Ok <==> self.ident@ is Ident,
            r matches Ok(s) ==> self.ident@ == SExpr::Ident(s@),
            r matches Err(es) ==> es@.len() == 1 && is_unexpected_error(es@[0], None),
    {
        let mut msg = String::from_str("Function call expected ident, got ");
        msg.append(self.ident.variant_name().as_str());
        unwrap_ident(None, &self.ident, msg)
    }
}

impl FuncDecl {
    /// The name of the declared function.
    pub fn get_ident(&self) -> (r: StdResult<String>)
        ensures
            r is Ok <==> self.ident@ is Ident,
            r matches Ok(s) ==> self.ident@ == SExpr::Ident(s@),
            r matches Err(es) ==> es@.len() == 1 && is_unexpected_error(es@[0], Some(self.lno)),
    {
        let mut msg = String::from_str("Expected ident to be Expr::Ident, got ");
        msg.append(self.ident.variant_name().as_str());
        unwrap_ident(Some(self.lno), &self.ident, msg)
    }

    /// The variable the declared function returns.
    pub fn get_ret(&self) -> (r: StdResult<String>)
        ensures
            r is Ok <==> self.ret@ is Ident,
            r matches Ok(s) ==> self.ret@ == SExpr::Ident(s@),
            r matches Err(es) ==> es@.len() == 1 && is_unexpected_error(es@[0], Some(self.lno)),
    {
        let mut msg = String::from_str("Expected ret to be Expr::Ident, got ");
        msg.append(self.ident.variant_name().as_str());
        unwrap_ident(Some(self.lno), &self.ret, msg)
    }

    /// The parameters of the declared function, or an error for each one that is no
    /// identifier.
    pub fn get_params(&self) -> (r: StdResult<Vec<String>>)
        ensures
            r is Ok <==> forall|i: int| 0 <= i < self.params@.len() ==> (#[trigger] self.params@[i])@ is Ident,
            r matches Ok(ps) ==> ps@.len() == self.params@.len() && forall|i: int|
                0 <= i < ps@.len() ==> self.params@[i]@ == SExpr::Ident((#[trigger] ps@[i])@),
    {
        let mut ps: Vec<String> = Vec::new();
        let mut errs: Vec<Error> = Vec::new();
        let mut i: usize = 0;
        while i < self.params.len()
            invariant
                i <= self.params@.len(),
                errs@.len() == 0 <==> forall|j: int| 0 <= j < i ==> (#[trigger] self.params@[j])@ is Ident,
                errs@.len() == 0 ==> ps@.len() == i && forall|j: int|
                    0 <= j < i ==> self.params@[j]@ == SExpr::Ident((#[trigger] ps@[j])@),
            decreases self.params.len() - i,
        {
            let mut msg = String::from_str("Expected param ");
            msg.append(usize_to_string(i).as_str());
            msg.append(" to be Expr::Ident, got ");
            msg.append(self.params[i].variant_name().as_str());
            match unwrap_ident(Some(self.lno), &self.params[i], msg) {
                Ok(s) => {
                    ps.push(s);
                },
                Err(e) => {
                    let mut e = e;
                    errs.append(&mut e);
                },
            }
            i = i + 1;
        }
        if errs.len() > 0 {
            Err(errs)
        } else {
            Ok(ps)
        }
    }
}

} // verus!
