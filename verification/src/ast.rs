//! Expressions: what a node holds, and what its operator is called.
//!
//! An expression lives in a context, which gives every node a hash of its own:
//! one hash is always one expression. What is held here of a node is what it
//! says, and the hash of the context's node that it was made from.
use std::sync::Arc;
use vstd::prelude::*;

verus! {

/// What a node is, apart from its operands.
///
/// Float sorts, rounding modes and float constants are held as their debug
/// output, which describes them fully.
#[derive(Debug, PartialEq, Eq)]
pub enum AstOp {
    /// A bitvector variable: name and width.
    BVS(String, u32),
    /// A boolean variable: name.
    BoolS(String),
    /// A float variable: name and sort.
    FPS(String, String),
    /// A string variable: name.
    StringS(String),
    /// A bitvector constant: little-endian bytes and width.
    BVV(Vec<u8>, u32),
    /// A boolean constant.
    BoolV(bool),
    /// A float constant.
    FPV(String),
    /// A string constant.
    StringV(String),
    /// Zero extension by a number of bits.
    ZeroExt(u32),
    /// Sign extension by a number of bits.
    SignExt(u32),
    /// The bits from the second position up to the first.
    Extract(u32, u32),
    /// Float addition under a rounding mode.
    FpAdd(String),
    /// Float subtraction under a rounding mode.
    FpSub(String),
    /// Float multiplication under a rounding mode.
    FpMul(String),
    /// Float division under a rounding mode.
    FpDiv(String),
    /// Float square root under a rounding mode.
    FpSqrt(String),
    /// Any other operator that has operands and nothing else, by its op string.
    Apply(String),
    /// Any other operator that has more than operands, such as a conversion: its
    /// op string, and the debug output of what it has. No hash looks at that.
    ApplyWith(String, String),
}

/// A node.
#[derive(Debug, PartialEq, Eq)]
pub struct Ast {
    pub op: AstOp,
    /// Of a variable, a number that stands for its annotations, 0 where it has none.
    /// Variables that are annotated differently are different variables.
    pub annotations: u64,
    /// The context's hash of the node that this one was read from. One that is
    /// made from another keeps it, so that the context's node can be found.
    pub origin: u64,
    pub children: Vec<Arc<Ast>>,
}

/// A shared expression.
pub type AstRef = Arc<Ast>;

/// The mathematical value of an [`AstOp`].
pub enum OpView {
    BVS(Seq<char>, u32),
    BoolS(Seq<char>),
    FPS(Seq<char>, Seq<char>),
    StringS(Seq<char>),
    BVV(Seq<u8>, u32),
    BoolV(bool),
    FPV(Seq<char>),
    StringV(Seq<char>),
    ZeroExt(u32),
    SignExt(u32),
    Extract(u32, u32),
    FpAdd(Seq<char>),
    FpSub(Seq<char>),
    FpMul(Seq<char>),
    FpDiv(Seq<char>),
    FpSqrt(Seq<char>),
    Apply(Seq<char>),
    ApplyWith(Seq<char>, Seq<char>),
}

/// The mathematical value of an [`Ast`]: a finite tree.
pub struct AstView {
    pub op: OpView,
    pub annotations: u64,
    pub origin: u64,
    pub children: Seq<AstView>,
}

impl View for AstOp {
    type V = OpView;

    open spec fn view(&self) -> OpView {
        match self {
            AstOp::BVS(name, size) => OpView::BVS(name@, *size),
            AstOp::BoolS(name) => OpView::BoolS(name@),
            AstOp::FPS(name, sort) => OpView::FPS(name@, sort@),
            AstOp::StringS(name) => OpView::StringS(name@),
            AstOp::BVV(bytes, size) => OpView::BVV(bytes@, *size),
            AstOp::BoolV(value) => OpView::BoolV(*value),
            AstOp::FPV(value) => OpView::FPV(value@),
            AstOp::StringV(value) => OpView::StringV(value@),
            AstOp::ZeroExt(amount) => OpView::ZeroExt(*amount),
            AstOp::SignExt(amount) => OpView::SignExt(*amount),
            AstOp::Extract(end, start) => OpView::Extract(*end, *start),
            AstOp::FpAdd(rm) => OpView::FpAdd(rm@),
            AstOp::FpSub(rm) => OpView::FpSub(rm@),
            AstOp::FpMul(rm) => OpView::FpMul(rm@),
            AstOp::FpDiv(rm) => OpView::FpDiv(rm@),
            AstOp::FpSqrt(rm) => OpView::FpSqrt(rm@),
            AstOp::Apply(name) => OpView::Apply(name@),
            AstOp::ApplyWith(name, rest) => OpView::ApplyWith(name@, rest@),
        }
    }
}

/// The tree that a node stands for.
pub open spec fn ast_view(a: Ast) -> AstView
    decreases a,
{
    AstView {
        op: a.op@,
        annotations: a.annotations,
        origin: a.origin,
        children: Seq::new(
            a.children@.len(),
            |i: int|
                if 0 <= i < a.children@.len() {
                    ast_view(*a.children@[i])
                } else {
                    arbitrary()
                },
        ),
    }
}

impl View for Ast {
    type V = AstView;

    open spec fn view(&self) -> AstView {
        ast_view(*self)
    }
}

/// The trees that a list of expressions stands for.
pub open spec fn views(asts: Seq<AstRef>) -> Seq<AstView> {
    Seq::new(asts.len(), |i: int| asts[i]@)
}

impl OpView {
    /// What the operator is called.
    pub open spec fn opstring(self) -> Seq<char> {
        match self {
            OpView::BVS(_, _) => "BVS"@,
            OpView::BoolS(_) => "BoolS"@,
            OpView::FPS(_, _) => "FPS"@,
            OpView::StringS(_) => "StringS"@,
            OpView::BVV(_, _) => "BVV"@,
            OpView::BoolV(_) => "BoolV"@,
            OpView::FPV(_) => "FPV"@,
            OpView::StringV(_) => "StringV"@,
            OpView::ZeroExt(_) => "ZeroExt"@,
            OpView::SignExt(_) => "SignExt"@,
            OpView::Extract(_, _) => "Extract"@,
            OpView::FpAdd(_) => "fpAdd"@,
            OpView::FpSub(_) => "fpSub"@,
            OpView::FpMul(_) => "fpMul"@,
            OpView::FpDiv(_) => "fpDiv"@,
            OpView::FpSqrt(_) => "fpSqrt"@,
            OpView::Apply(name) => name,
            OpView::ApplyWith(name, _) => name,
        }
    }

    /// Whether this is a variable, which has a name.
    pub open spec fn has_name(self) -> bool {
        self is BVS || self is BoolS || self is FPS || self is StringS
    }

    /// The same operator with another name, where it is one that has a name.
    pub open spec fn renamed(self, name: Seq<char>) -> OpView {
        match self {
            OpView::BVS(_, size) => OpView::BVS(name, size),
            OpView::BoolS(_) => OpView::BoolS(name),
            OpView::FPS(_, sort) => OpView::FPS(name, sort),
            OpView::StringS(_) => OpView::StringS(name),
            _ => self,
        }
    }
}

impl AstView {
    /// The same node over other operands.
    pub open spec fn over(self, children: Seq<AstView>) -> AstView {
        AstView {
            op: self.op,
            annotations: self.annotations,
            origin: self.origin,
            children,
        }
    }

    /// A variable of the same type under another name, without annotations. A node
    /// that has no name stays as it is.
    pub open spec fn renamed(self, name: Seq<char>) -> AstView {
        if self.op.has_name() {
            AstView {
                op: self.op.renamed(name),
                annotations: 0,
                origin: self.origin,
                children: Seq::empty(),
            }
        } else {
            self
        }
    }
}

impl Ast {
    /// What the operator is called.
    pub fn to_opstring(&self) -> (name: String)
        ensures
            name@ == self@.op.opstring(),
    {
        match &self.op {
            AstOp::BVS(_, _) => "BVS".to_owned(),
            AstOp::BoolS(_) => "BoolS".to_owned(),
            AstOp::FPS(_, _) => "FPS".to_owned(),
            AstOp::StringS(_) => "StringS".to_owned(),
            AstOp::BVV(_, _) => "BVV".to_owned(),
            AstOp::BoolV(_) => "BoolV".to_owned(),
            AstOp::FPV(_) => "FPV".to_owned(),
            AstOp::StringV(_) => "StringV".to_owned(),
            AstOp::ZeroExt(_) => "ZeroExt".to_owned(),
            AstOp::SignExt(_) => "SignExt".to_owned(),
            AstOp::Extract(_, _) => "Extract".to_owned(),
            AstOp::FpAdd(_) => "fpAdd".to_owned(),
            AstOp::FpSub(_) => "fpSub".to_owned(),
            AstOp::FpMul(_) => "fpMul".to_owned(),
            AstOp::FpDiv(_) => "fpDiv".to_owned(),
            AstOp::FpSqrt(_) => "fpSqrt".to_owned(),
            AstOp::Apply(name) => name.clone(),
            AstOp::ApplyWith(name, _) => name.clone(),
        }
    }
}

impl Clone for AstOp {
    fn clone(&self) -> (copy: AstOp)
        ensures
            copy@ == self@,
    {
        match self {
            AstOp::BVS(name, size) => AstOp::BVS(name.clone(), *size),
            AstOp::BoolS(name) => AstOp::BoolS(name.clone()),
            AstOp::FPS(name, sort) => AstOp::FPS(name.clone(), sort.clone()),
            AstOp::StringS(name) => AstOp::StringS(name.clone()),
            AstOp::BVV(bytes, size) => {
                let copied = bytes.clone();
                assert(copied@ =~= bytes@);
                AstOp::BVV(copied, *size)
            },
            AstOp::BoolV(value) => AstOp::BoolV(*value),
            AstOp::FPV(value) => AstOp::FPV(value.clone()),
            AstOp::StringV(value) => AstOp::StringV(value.clone()),
            AstOp::ZeroExt(amount) => AstOp::ZeroExt(*amount),
            AstOp::SignExt(amount) => AstOp::SignExt(*amount),
            AstOp::Extract(end, start) => AstOp::Extract(*end, *start),
            AstOp::FpAdd(rm) => AstOp::FpAdd(rm.clone()),
            AstOp::FpSub(rm) => AstOp::FpSub(rm.clone()),
            AstOp::FpMul(rm) => AstOp::FpMul(rm.clone()),
            AstOp::FpDiv(rm) => AstOp::FpDiv(rm.clone()),
            AstOp::FpSqrt(rm) => AstOp::FpSqrt(rm.clone()),
            AstOp::Apply(name) => AstOp::Apply(name.clone()),
            AstOp::ApplyWith(name, rest) => AstOp::ApplyWith(name.clone(), rest.clone()),
        }
    }
}

/// The same node over other operands, its other fields kept.
pub fn rebuild(ast: &AstRef, children: Vec<AstRef>) -> (node: AstRef)
    ensures
        node@ == ast@.over(views(children@)),
{
    let node = Ast {
        op: ast.op.clone(),
        annotations: ast.annotations,
        origin: ast.origin,
        children,
    };
    assert(node@.children =~= views(children@));
    Arc::new(node)
}

/// A variable of the same type under another name, without annotations. A node that
/// has no name stays as it is.
pub fn rename_leaf(ast: &AstRef, name: String) -> (node: AstRef)
    ensures
        node@ == ast@.renamed(name@),
{
    let op = match &ast.op {
        AstOp::BVS(_, size) => AstOp::BVS(name, *size),
        AstOp::BoolS(_) => AstOp::BoolS(name),
        AstOp::FPS(_, sort) => AstOp::FPS(name, sort.clone()),
        AstOp::StringS(_) => AstOp::StringS(name),
        _ => return ast.clone(),
    };
    let node = Ast { op, annotations: 0, origin: ast.origin, children: Vec::new() };
    assert(node@.children =~= Seq::empty());
    Arc::new(node)
}

fn same_bytes(a: &Vec<u8>, b: &Vec<u8>) -> (same: bool)
    ensures
        same == (a@ == b@),
{
    if a.len() != b.len() {
        return false;
    }
    let mut i: usize = 0;
    while i < a.len()
        invariant
            i <= a@.len(),
            a@.len() == b@.len(),
            forall|j: int| 0 <= j < i ==> a@[j] == b@[j],
        decreases a@.len() - i,
    {
        if a[i] != b[i] {
            return false;
        }
        i = i + 1;
    }
    assert(a@ =~= b@);
    true
}

/// Whether two nodes are the same apart from their operands.
pub fn same_op(a: &AstOp, b: &AstOp) -> (same: bool)
    ensures
        same == (a@ == b@),
{
    match (a, b) {
        (AstOp::BVS(x, m), AstOp::BVS(y, n)) => *x == *y && *m == *n,
        (AstOp::BoolS(x), AstOp::BoolS(y)) => *x == *y,
        (AstOp::FPS(x, m), AstOp::FPS(y, n)) => *x == *y && *m == *n,
        (AstOp::StringS(x), AstOp::StringS(y)) => *x == *y,
        (AstOp::BVV(x, m), AstOp::BVV(y, n)) => same_bytes(x, y) && *m == *n,
        (AstOp::BoolV(x), AstOp::BoolV(y)) => *x == *y,
        (AstOp::FPV(x), AstOp::FPV(y)) => *x == *y,
        (AstOp::StringV(x), AstOp::StringV(y)) => *x == *y,
        (AstOp::ZeroExt(x), AstOp::ZeroExt(y)) => *x == *y,
        (AstOp::SignExt(x), AstOp::SignExt(y)) => *x == *y,
        (AstOp::Extract(x, m), AstOp::Extract(y, n)) => *x == *y && *m == *n,
        (AstOp::FpAdd(x), AstOp::FpAdd(y)) => *x == *y,
        (AstOp::FpSub(x), AstOp::FpSub(y)) => *x == *y,
        (AstOp::FpMul(x), AstOp::FpMul(y)) => *x == *y,
        (AstOp::FpDiv(x), AstOp::FpDiv(y)) => *x == *y,
        (AstOp::FpSqrt(x), AstOp::FpSqrt(y)) => *x == *y,
        (AstOp::Apply(x), AstOp::Apply(y)) => *x == *y,
        (AstOp::ApplyWith(x, m), AstOp::ApplyWith(y, n)) => *x == *y && *m == *n,
        _ => false,
    }
}

} // verus!
