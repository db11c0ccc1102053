//! Expression graphs: the input from which tapes are built.
use vstd::prelude::*;
use crate::error::Error;
use crate::op::{closed, BinaryKind, Term, UnaryKind};

verus! {

/// A handle to a node of a [`Context`]: its position in the context.
#[derive(Clone, Copy, Debug, PartialEq, Eq, Structural)]
pub struct Node(pub usize);

/// A node of an expression graph.
#[derive(Clone, Copy, Debug, PartialEq, Eq, Structural)]
pub enum Op {
    /// A coordinate axis: 0, 1 or 2.
    Input(u8),
    /// A named variable, by its index among the names of the context.
    Var(usize),
    /// A constant, as the bit pattern of a 32-bit IEEE-754 number.
    Const(u32),
    /// A function of one node.
    Unary(UnaryKind, Node),
    /// A function of two nodes.
    Binary(BinaryKind, Node, Node),
}

/// The index in `names` of the variable called `name`, or `u32::MAX` if
/// none is called so.
pub open spec fn var_index(names: Seq<Seq<char>>, name: Seq<char>) -> u32 {
    if names.contains(name) {
        names.index_of(name) as u32
    } else {
        u32::MAX
    }
}

/// The expression that node `n` of the graph `ops` stands for. A variable
/// is written with the index that its name has in `names`. Where a
/// constant stands on the left of an operation whose operands may change
/// places and the right operand is no constant, the constant is written on
/// the right.
pub open spec fn term_of(
    ops: Seq<Op>,
    vars: Seq<Seq<char>>,
    names: Seq<Seq<char>>,
    n: int,
) -> Term
    decreases n,
{
    if n < 0 || n >= ops.len() {
        Term::Imm(0)
    } else {
        match ops[n] {
            Op::Input(axis) => Term::Input(axis),
            Op::Var(v) => Term::Var(var_index(names, vars[v as int])),
            Op::Const(c) => Term::Imm(c),
            Op::Unary(k, a) => if a.0 < n {
                Term::Unary(k, Box::new(term_of(ops, vars, names, a.0 as int)))
            } else {
                Term::Imm(0)
            },
            Op::Binary(k, a, b) => if a.0 < n && b.0 < n {
                let l = term_of(ops, vars, names, a.0 as int);
                let r = term_of(ops, vars, names, b.0 as int);
                if k.commutes() && ops[a.0 as int] is Const && !(ops[b.0 as int] is Const) {
                    Term::Binary(k, Box::new(r), Box::new(l))
                } else {
                    Term::Binary(k, Box::new(l), Box::new(r))
                }
            } else {
                Term::Imm(0)
            },
        }
    }
}

/// Adding a node leaves the expressions of the nodes that were there as
/// they are.
pub proof fn lemma_term_grows(
    ops: Seq<Op>,
    op: Op,
    vars: Seq<Seq<char>>,
    names: Seq<Seq<char>>,
    n: int,
)
    requires
        graph_ok(ops, vars),
        0 <= n < ops.len(),
    ensures
        term_of(ops.push(op), vars, names, n) == term_of(ops, vars, names, n),
    decreases n,
{
    match ops[n] {
        Op::Unary(_, a) => {
            lemma_term_grows(ops, op, vars, names, a.0 as int);
        },
        Op::Binary(_, a, b) => {
            lemma_term_grows(ops, op, vars, names, a.0 as int);
            lemma_term_grows(ops, op, vars, names, b.0 as int);
        },
        _ => {},
    }
}

/// The expression of a node is closed.
pub proof fn lemma_term_closed(ops: Seq<Op>, vars: Seq<Seq<char>>, names: Seq<Seq<char>>, n: int)
    ensures
        closed(term_of(ops, vars, names, n)),
    decreases n,
{
    if 0 <= n < ops.len() {
        match ops[n] {
            Op::Unary(_, a) => {
                if a.0 < n {
                    lemma_term_closed(ops, vars, names, a.0 as int);
                }
            },
            Op::Binary(_, a, b) => {
                if a.0 < n && b.0 < n {
                    lemma_term_closed(ops, vars, names, a.0 as int);
                    lemma_term_closed(ops, vars, names, b.0 as int);
                }
            },
            _ => {},
        }
    }
}

/// The nodes `ops` with the node `op` among them: added at the end unless
/// it is there already.
pub open spec fn interned(ops: Seq<Op>, op: Op) -> Seq<Op> {
    if ops.contains(op) {
        ops
    } else {
        ops.push(op)
    }
}

/// The shape of an expression graph: every node refers to earlier nodes,
/// every variable to a name, every input to one of three axes, and no node
/// or name occurs twice.
pub open spec fn graph_ok(ops: Seq<Op>, vars: Seq<Seq<char>>) -> bool {
    &&& forall|n: int|
        0 <= n < ops.len() ==> match #[trigger] ops[n] {
            Op::Input(axis) => axis < 3,
            Op::Var(v) => v < vars.len(),
            Op::Const(_) => true,
            Op::Unary(_, a) => a.0 < n,
            Op::Binary(_, a, b) => a.0 < n && b.0 < n,
        }
    &&& forall|i: int, j: int| 0 <= i < j < vars.len() ==> vars[i] != vars[j]
    &&& forall|i: int, j: int| 0 <= i < j < ops.len() ==> ops[i] != ops[j]
}

/// An expression graph. Nodes are added one by one and never change, and
/// a node can be used by any number of later nodes. A node that is part of
/// the graph already is not added again: asking for it returns the handle
/// that it has, so that equal expressions are one node. Looking for it takes
/// time in proportion to the size of the graph.
pub struct Context {
    ops: Vec<Op>,
    vars: Vec<String>,
}

impl Context {
    /// The nodes, in the order in which they were added.
    pub closed spec fn ops(&self) -> Seq<Op> {
        self.ops@
    }

    /// The names of the variables.
    pub closed spec fn names(&self) -> Seq<Seq<char>> {
        Seq::new(self.vars@.len(), |i: int| self.vars@[i]@)
    }

    /// The graph is well formed.
    pub open spec fn wf(&self) -> bool {
        graph_ok(self.ops(), self.names())
    }

    /// The expression that `node` stands for, with variables numbered as in
    /// `names`.
    pub open spec fn term(&self, node: Node, names: Seq<Seq<char>>) -> Term {
        term_of(self.ops(), self.names(), names, node.0 as int)
    }

    /// An empty graph.
    pub fn new() -> (r: Context)
        ensures
            r.wf(),
            r.ops() == Seq::<Op>::empty(),
            r.names() == Seq::<Seq<char>>::empty(),
    {
        Context { ops: Vec::new(), vars: Vec::new() }
    }

    /// Returns the number of nodes.
    pub fn len(&self) -> (r: usize)
        ensures
            r == self.ops().len(),
    {
        self.ops.len()
    }

    /// Returns the node behind a handle, if the handle is one of this
    /// graph.
    pub fn get_op(&self, node: Node) -> (r: Option<Op>)
        ensures
            r == if node.0 < self.ops().len() {
                Some(self.ops()[node.0 as int])
            } else {
                None
            },
    {
        if node.0 < self.ops.len() {
            Some(self.ops[node.0])
        } else {
            None
        }
    }

    /// Returns the name of the variable with index `v`.
    pub fn var_name(&self, v: usize) -> (r: &String)
        requires
            v < self.names().len(),
        ensures
            r@ == self.names()[v as int],
    {
        &self.vars[v]
    }

    /// Returns the number of variable names.
    pub fn var_count(&self) -> (r: usize)
        ensures
            r == self.names().len(),
    {
        self.vars.len()
    }

    fn push(&mut self, op: Op) -> (r: Node)
        requires
            old(self).wf(),
            match op {
                Op::Input(axis) => axis < 3,
                Op::Var(v) => v < old(self).names().len(),
                Op::Const(_) => true,
                Op::Unary(_, a) => a.0 < old(self).ops().len(),
                Op::Binary(_, a, b) => a.0 < old(self).ops().len() && b.0 < old(self).ops().len(),
            },
        ensures
            final(self).wf(),
            final(self).ops() == interned(old(self).ops(), op),
            final(self).names() == old(self).names(),
            r.0 < final(self).ops().len(),
            final(self).ops()[r.0 as int] == op,
    {
        let mut i: usize = 0;
        while i < self.ops.len()
            invariant
                i <= self.ops@.len(),
                self.ops@ == old(self).ops@,
                self.vars@ == old(self).vars@,
                self.wf(),
                forall|j: int| 0 <= j < i ==> self.ops@[j] != op,
            decreases self.ops@.len() - i,
        {
            if self.ops[i] == op {
                return Node(i);
            }
            i = i + 1;
        }
        let r = Node(self.ops.len());
        self.ops.push(op);
        r
    }

    /// Adds a node for the first coordinate axis.
    pub fn x(&mut self) -> (r: Node)
        requires
            old(self).wf(),
        ensures
            final(self).wf(),
            final(self).ops() == interned(old(self).ops(), Op::Input(0)),
            final(self).names() == old(self).names(),
            r.0 < final(self).ops().len(),
            final(self).ops()[r.0 as int] == Op::Input(0),
    {
        self.push(Op::Input(0))
    }

    /// Adds a node for the second coordinate axis.
    pub fn y(&mut self) -> (r: Node)
        requires
            old(self).wf(),
        ensures
            final(self).wf(),
            final(self).ops() == interned(old(self).ops(), Op::Input(1)),
            final(self).names() == old(self).names(),
            r.0 < final(self).ops().len(),
            final(self).ops()[r.0 as int] == Op::Input(1),
    {
        self.push(Op::Input(1))
    }

    /// Adds a node for the third coordinate axis.
    pub fn z(&mut self) -> (r: Node)
        requires
            old(self).wf(),
        ensures
            final(self).wf(),
            final(self).ops() == interned(old(self).ops(), Op::Input(2)),
            final(self).names() == old(self).names(),
            r.0 < final(self).ops().len(),
            final(self).ops()[r.0 as int] == Op::Input(2),
    {
        self.push(Op::Input(2))
    }

    /// Adds a node for the constant with the bit pattern `bits`.
    pub fn constant(&mut self, bits: u32) -> (r: Node)
        requires
            old(self).wf(),
        ensures
            final(self).wf(),
            final(self).ops() == interned(old(self).ops(), Op::Const(bits)),
            final(self).names() == old(self).names(),
            r.0 < final(self).ops().len(),
            final(self).ops()[r.0 as int] == Op::Const(bits),
    {
        self.push(Op::Const(bits))
    }

    /// Adds a node for the variable called `name`. The name is added to
    /// the names of the graph unless it is one of them already.
    pub fn var(&mut self, name: String) -> (r: Node)
        requires
            old(self).wf(),
        ensures
            final(self).wf(),
            r.0 < final(self).ops().len(),
            final(self).ops()[r.0 as int] matches Op::Var(v) && v < final(self).names().len()
                && final(self).names()[v as int] == name@ && final(self).ops() == interned(
                old(self).ops(),
                Op::Var(v),
            ),
            if old(self).names().contains(name@) {
                final(self).names() == old(self).names()
            } else {
                final(self).names() == old(self).names().push(name@)
            },
    {
        let mut i: usize = 0;
        while i < self.vars.len()
            invariant
                i <= self.vars@.len(),
                self.vars@ == old(self).vars@,
                self.ops@ == old(self).ops@,
                self.wf(),
                forall|j: int| 0 <= j < i ==> self.vars@[j]@ != name@,
            decreases self.vars@.len() - i,
        {
            if self.vars[i] == name {
                return self.push(Op::Var(i));
            }
            i = i + 1;
        }
        let v: usize = self.vars.len();
        self.vars.push(name);
        proof {
            assert(self.names() =~= old(self).names().push(name@));
        }
        self.push(Op::Var(v))
    }

    /// Adds a node that applies `kind` to the node `a`, which has to be a
    /// node of this graph.
    pub fn unary(&mut self, kind: UnaryKind, a: Node) -> (r: Result<Node, Error>)
        requires
            old(self).wf(),
        ensures
            final(self).wf(),
            final(self).names() == old(self).names(),
            match r {
                Ok(n) => a.0 < old(self).ops().len() && n.0 < final(self).ops().len() && final(
                    self).ops()[n.0 as int] == Op::Unary(kind, a) && final(self).ops() == interned(
                    old(self).ops(),
                    Op::Unary(kind, a),
                ),
                Err(e) => e == Error::BadNode && a.0 >= old(self).ops().len() && final(self).ops()
                    == old(self).ops(),
            },
    {
        if a.0 >= self.ops.len() {
            return Err(Error::BadNode);
        }
        Ok(self.push(Op::Unary(kind, a)))
    }

    /// Adds a node that applies `kind` to the nodes `a` and `b`, which
    /// have to be nodes of this graph.
    pub fn binary(&mut self, kind: BinaryKind, a: Node, b: Node) -> (r: Result<Node, Error>)
        requires
            old(self).wf(),
        ensures
            final(self).wf(),
            final(self).names() == old(self).names(),
            match r {
                Ok(n) => a.0 < old(self).ops().len() && b.0 < old(self).ops().len() && n.0 < final(
                    self).ops().len() && final(self).ops()[n.0 as int] == Op::Binary(kind, a, b)
                    && final(self).ops() == interned(old(self).ops(), Op::Binary(kind, a, b)),
                Err(e) => e == Error::BadNode && (a.0 >= old(self).ops().len() || b.0 >= old(self).ops().len()) && final(self).ops() == old(self).ops(),
            },
    {
        if a.0 >= self.ops.len() || b.0 >= self.ops.len() {
            return Err(Error::BadNode);
        }
        Ok(self.push(Op::Binary(kind, a, b)))
    }
}

} // verus!
