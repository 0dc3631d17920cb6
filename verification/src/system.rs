//! The symbol table of a session, and the written form of expressions over its symbols.

use crate::expression::algebra::Expression;
use crate::expression::eval::{bound_by, countable, program, EvalError, Step};
use crate::expression::{ExprKind, Expressand, Var};
use crate::matrix::{is_square, Grid, SqMatrix};
use crate::render::{push_scalar, scalar_text};
use crate::term::Term;
use crate::tree::{child_of, done_of, NodeId};
use vstd::prelude::*;
use vstd::string::*;

verus! {

/// The characters that separate names: space, tab, line feed, form feed, carriage return.
pub open spec fn is_space(c: char) -> bool {
    c == ' ' || c == '\t' || c == '\n' || c == '\x0C' || c == '\r'
}

/// The names of a list: its maximal runs of characters that are not separators.
pub open spec fn words(s: Seq<char>) -> Seq<Seq<char>>
    decreases s.len(),
{
    if s.len() == 0 {
        Seq::empty()
    } else if is_space(s.last()) {
        words(s.drop_last())
    } else if s.len() >= 2 && !is_space(s[s.len() - 2]) {
        let before = words(s.drop_last());
        before.drop_last().push(before.last().push(s.last()))
    } else {
        words(s.drop_last()).push(seq![s.last()])
    }
}

/// The contents of a sequence of strings.
pub open spec fn texts(names: Seq<String>) -> Seq<Seq<char>> {
    Seq::new(names.len(), |i: int| names[i]@)
}

/// Among the first `n` requested names, the first that is already known or was requested
/// before.
pub open spec fn first_clash(known: Seq<Seq<char>>, requested: Seq<Seq<char>>, n: int) -> Option<
    Seq<char>,
>
    decreases n,
{
    if n <= 0 {
        None
    } else {
        match first_clash(known, requested, n - 1) {
            Some(name) => Some(name),
            None => if (known + requested.take(n - 1)).contains(requested[n - 1]) {
                Some(requested[n - 1])
            } else {
                None
            },
        }
    }
}

/// What is said of a name that cannot be registered again.
pub open spec fn clash_message(name: Seq<char>) -> Seq<char> {
    "Variable with the name "@ + name + " already exists"@
}

/// The handles with the `n` ids from `start` on.
pub open spec fn fresh(start: nat, n: nat) -> Seq<Var> {
    Seq::new(n, |i: int| Var { id: (start + i) as usize })
}

/// The written forms of the terms, with `separator` between them.
pub open spec fn joined(ts: Seq<Term>, separator: Seq<char>, names: Seq<Seq<char>>, n: int) -> Seq<
    char,
>
    decreases ts, n,
{
    if n <= 0 || n > ts.len() {
        Seq::empty()
    } else if n == 1 {
        written(ts[0], names)
    } else {
        joined(ts, separator, names, n - 1) + separator + written(ts[n - 1], names)
    }
}

/// The written form of a term over the given names.
///
/// A variable is written by its name, a constant in exponent form with three decimals
/// (see [`scalar_text`]), a sum in parentheses with `+` between the terms, a product
/// between blanks with `*` between the factors, a power in parentheses with `^` between
/// base and exponent, the exponential as ` e^` and its argument, the logarithm as
/// `ln(..)`, a function by its name and its arguments in parentheses, and the terms of a
/// root one after the other.
pub open spec fn written(t: Term, names: Seq<Seq<char>>) -> Seq<char>
    decreases t, t.args.len() + 1,
{
    let n = t.args.len() as int;
    match t.kind {
        ExprKind::Var(v) => if v.id < names.len() {
            names[v.id as int]
        } else {
            "?"@
        },
        ExprKind::Const(c) => scalar_text(c),
        ExprKind::Add => "("@ + joined(t.args, "+"@, names, n) + ")"@,
        ExprKind::Mul => " "@ + joined(t.args, "*"@, names, n) + " "@,
        ExprKind::Pow => "("@ + joined(t.args, "^"@, names, n) + ")"@,
        ExprKind::Exp => " e^"@ + joined(t.args, ","@, names, n) + " "@,
        ExprKind::Ln => "ln("@ + joined(t.args, ","@, names, n) + ")"@,
        ExprKind::Func(f) => f.name() + "("@ + joined(t.args, ","@, names, n) + ")"@,
        ExprKind::Root => joined(t.args, ""@, names, n),
    }
}

/// A run of `n` blanks.
pub open spec fn blanks(n: int) -> Seq<char>
    decreases n,
{
    if n <= 0 {
        Seq::empty()
    } else {
        blanks(n - 1).push(' ')
    }
}

/// The text in the middle of a field of `width` characters; of an odd number of blanks
/// the greater part goes behind. A text that fills the field stays as it is.
pub open spec fn centered(text: Seq<char>, width: int) -> Seq<char> {
    if text.len() >= width {
        text
    } else {
        let pad = width - text.len();
        blanks(pad / 2) + text + blanks(pad - pad / 2)
    }
}

/// The written forms of the first `n` entries of a row, each in the middle of a field of
/// eight characters.
pub open spec fn row_text(row: Seq<Term>, names: Seq<Seq<char>>, n: int) -> Seq<char>
    decreases n,
{
    if n <= 0 {
        Seq::empty()
    } else {
        row_text(row, names, n - 1) + centered(written(row[n - 1], names), 8)
    }
}

/// The written form of the first `n` rows of a grid: each row in brackets on a line of
/// its own.
pub open spec fn grid_text(g: Grid, names: Seq<Seq<char>>, n: int) -> Seq<char>
    decreases n,
{
    if n <= 0 {
        Seq::empty()
    } else {
        grid_text(g, names, n - 1) + "["@ + row_text(g[n - 1], names, g[n - 1].len() as int)
            + "]\n"@
    }
}

/// The names of a session: the name of the variable with id `i` stands at index `i`.
#[derive(Clone, Debug)]
pub struct System {
    variables: Vec<String>,
}

impl Default for System {
    /// A session without names.
    fn default() -> (r: System)
        ensures
            r.names() == Seq::<Seq<char>>::empty(),
    {
        System::new()
    }
}

impl System {
    /// The registered names, by id.
    pub closed spec fn names(&self) -> Seq<Seq<char>> {
        texts(self.variables@)
    }

    /// A session without names.
    pub fn new() -> (r: System)
        ensures
            r.names() == Seq::<Seq<char>>::empty(),
    {
        let r = System { variables: Vec::new() };
        proof {
            assert(r.names() =~= Seq::<Seq<char>>::empty());
        }
        r
    }

    /// The number of registered names.
    pub fn len(&self) -> (r: usize)
        ensures
            r == self.names().len(),
    {
        self.variables.len()
    }

    /// The name of the variable `v`, if it is registered.
    pub fn name(&self, v: Var) -> (r: Option<&String>)
        ensures
            r.is_some() == (v.id < self.names().len()),
            r matches Some(name) ==> name@ == self.names()[v.id as int],
    {
        if v.id < self.variables.len() {
            Some(&self.variables[v.id])
        } else {
            None
        }
    }

    /// Registers the names of a list separated by white space and returns their handles,
    /// whose ids follow those already given out. Where a name of the list is registered
    /// already, or occurs in the list a second time, nothing is registered, and the first
    /// such name is reported.
    pub fn symbols(&mut self, idents: &str) -> (r: Result<Vec<Var>, String>)
        ensures
            old(self).names().no_duplicates() ==> final(self).names().no_duplicates(),
            match first_clash(old(self).names(), words(idents@), words(idents@).len() as int) {
                Some(name) => {
                    &&& r matches Err(message)
                    &&& message@ == clash_message(name)
                    &&& final(self).names() == old(self).names()
                },
                None => {
                    &&& r matches Ok(vars)
                    &&& vars@ == fresh(old(self).names().len(), words(idents@).len())
                    &&& final(self).names() == old(self).names() + words(idents@)
                },
            },
    {
        let requested = split_words(idents);
        let ghost known = self.names();
        let ghost wanted = words(idents@);
        let mut i: usize = 0;
        while i < requested.len()
            invariant
                i <= requested@.len(),
                texts(requested@) == wanted,
                wanted == words(idents@),
                known == old(self).names(),
                known == texts(self.variables@),
                first_clash(known, wanted, i as int) is None,
            decreases requested@.len() - i,
        {
            let mut clash = false;
            let mut j: usize = 0;
            while j < self.variables.len()
                invariant
                    j <= self.variables@.len(),
                    i < requested@.len(),
                    known == texts(self.variables@),
                    texts(requested@) == wanted,
                    clash == known.take(j as int).contains(wanted[i as int]),
                decreases self.variables@.len() - j,
            {
                let same = self.variables[j] == requested[i];
                proof {
                    assert(known[j as int] == self.variables@[j as int]@);
                    assert(wanted[i as int] == requested@[i as int]@);
                    lemma_contains_push(known.take(j as int), known[j as int], wanted[i as int]);
                    assert(known.take(j as int).push(known[j as int]) =~= known.take(j + 1));
                }
                if same {
                    clash = true;
                }
                j += 1;
            }
            let mut k: usize = 0;
            proof {
                assert(known.take(j as int) =~= known);
                assert(wanted.take(0) =~= Seq::<Seq<char>>::empty());
            }
            while k < i
                invariant
                    k <= i,
                    i < requested@.len(),
                    texts(requested@) == wanted,
                    clash == (known.contains(wanted[i as int]) || wanted.take(k as int).contains(
                        wanted[i as int],
                    )),
                decreases i - k,
            {
                let same = requested[k] == requested[i];
                proof {
                    assert(wanted[k as int] == requested@[k as int]@);
                    assert(wanted[i as int] == requested@[i as int]@);
                    lemma_contains_push(wanted.take(k as int), wanted[k as int], wanted[i as int]);
                    assert(wanted.take(k as int).push(wanted[k as int]) =~= wanted.take(k + 1));
                }
                if same {
                    clash = true;
                }
                k += 1;
            }
            proof {
                lemma_contains_add(known, wanted.take(i as int), wanted[i as int]);
            }
            if clash {
                let message = String::from_str("Variable with the name ").concat(
                    requested[i].as_str(),
                ).concat(" already exists");
                proof {
                    assert(wanted[i as int] == requested@[i as int]@);
                    assert(first_clash(known, wanted, i + 1) == Some(wanted[i as int]));
                    lemma_first_clash_stays(known, wanted, i + 1, wanted.len() as int);
                    assert(message@ =~= clash_message(wanted[i as int]));
                }
                return Err(message);
            }
            i += 1;
        }
        let mut vars: Vec<Var> = Vec::new();
        let ghost start = known.len();
        let count = requested.len();
        let mut i: usize = 0;
        proof {
            assert(wanted.take(0) =~= Seq::<Seq<char>>::empty());
            assert(known + wanted.take(0) =~= known);
        }
        for name in it: requested
            invariant
                i == it.index(),
                it.seq().len() == count,
                texts(it.seq()) == wanted,
                first_clash(known, wanted, wanted.len() as int) is None,
                start == known.len(),
                texts(self.variables@) == known + wanted.take(i as int),
                known.no_duplicates() ==> texts(self.variables@).no_duplicates(),
                vars@ == fresh(start, i as nat),
        {
            let id = self.variables.len();
            proof {
                assert(wanted[i as int] == name@);
                lemma_no_clash_at(known, wanted, wanted.len() as int, i as int);
                let before = texts(self.variables@);
                assert(texts(self.variables@.push(name)) =~= before.push(name@));
                assert((known + wanted.take(i as int)).push(wanted[i as int]) =~= known
                    + wanted.take(i + 1));
                assert(fresh(start, i as nat).push(Var { id }) =~= fresh(start, (i + 1) as nat));
            }
            self.variables.push(name);
            vars.push(Var { id });
            i += 1;
        }
        proof {
            assert(wanted.take(wanted.len() as int) =~= wanted);
        }
        Ok(vars)
    }

    /// Whether the session has a name for every variable of the expression.
    pub fn knows(&self, exp: &Expression) -> (r: bool)
        ensures
            r == bound_by(exp@, self.names().len()),
    {
        exp.bound_by(self.variables.len())
    }

    /// The written form of the expression; a variable without a name is written `?`.
    pub fn str(&self, exp: &Expression) -> (r: String)
        ensures
            r@ == written(exp@, self.names()),
    {
        let mut out = String::new();
        let top = exp.0.top();
        let _ = exp.0.tree();
        write_node(&self.variables, &exp.0, top, &mut out);
        proof {
            assert(Seq::<char>::empty() + written(exp@, self.names()) =~= written(
                exp@,
                self.names(),
            ));
        }
        out
    }

    /// The written form of a matrix, row by row.
    pub fn strmat<const N: usize>(&self, mat: &SqMatrix<N>) -> (r: String)
        ensures
            r@ == grid_text(mat@, self.names(), N as int),
    {
        let size = mat.size();
        let mut out = String::new();
        let mut i: usize = 0;
        proof {
            assert(out@ =~= grid_text(mat@, self.names(), 0));
        }
        while i < N
            invariant
                i <= N,
                is_square(mat@, N as nat),
                out@ == grid_text(mat@, self.names(), i as int),
            decreases N - i,
        {
            out.append("[");
            let ghost opened = out@;
            let mut j: usize = 0;
            proof {
                assert(opened + row_text(mat@[i as int], self.names(), 0) =~= opened);
            }
            while j < N
                invariant
                    j <= N,
                    i < N,
                    is_square(mat@, N as nat),
                    out@ == opened + row_text(mat@[i as int], self.names(), j as int),
                decreases N - j,
            {
                let text = self.str(&mat.get(i, j));
                push_centered(&mut out, text.as_str(), 8);
                proof {
                    assert(out@ =~= opened + row_text(mat@[i as int], self.names(), j + 1));
                }
                j += 1;
            }
            out.append("]\n");
            proof {
                assert(out@ =~= grid_text(mat@, self.names(), i + 1));
            }
            i += 1;
        }
        out
    }

    /// The steps that evaluate the expression over `bindings` values, one for each
    /// variable by id. It is an error if the bindings are fewer than the registered
    /// names, or do not reach a variable of the expression.
    pub fn eval(&self, exp: &Expression, bindings: usize) -> (r: Result<Vec<Step>, EvalError>)
        ensures
            r is Ok == (self.names().len() <= bindings && bound_by(exp@, bindings as nat)),
            r matches Ok(steps) ==> steps@ == program(exp@) && countable(exp@),
            r matches Err(e) ==> e == EvalError::MissingBinding,
    {
        if bindings < self.variables.len() || !exp.bound_by(bindings) {
            Err(EvalError::MissingBinding)
        } else {
            Ok(exp.program())
        }
    }
}

/// A sequence with one more element holds a value exactly if the sequence held it or the
/// element is the value.
proof fn lemma_contains_push(s: Seq<Seq<char>>, last: Seq<char>, x: Seq<char>)
    ensures
        s.push(last).contains(x) == (s.contains(x) || last == x),
{
    if s.contains(x) {
        let i = choose|i: int| 0 <= i < s.len() && s[i] == x;
        assert(s.push(last)[i] == x);
    }
    if last == x {
        assert(s.push(last)[s.len() as int] == x);
    }
    if s.push(last).contains(x) {
        let i = choose|i: int| 0 <= i < s.push(last).len() && s.push(last)[i] == x;
        if i < s.len() {
            assert(s[i] == x);
        }
    }
}

/// Two sequences, one after the other, hold a value exactly if one of them holds it.
proof fn lemma_contains_add(a: Seq<Seq<char>>, b: Seq<Seq<char>>, x: Seq<char>)
    ensures
        (a + b).contains(x) == (a.contains(x) || b.contains(x)),
{
    if a.contains(x) {
        let i = choose|i: int| 0 <= i < a.len() && a[i] == x;
        assert((a + b)[i] == x);
    }
    if b.contains(x) {
        let i = choose|i: int| 0 <= i < b.len() && b[i] == x;
        assert((a + b)[a.len() + i] == x);
    }
    if (a + b).contains(x) {
        let i = choose|i: int| 0 <= i < (a + b).len() && (a + b)[i] == x;
        if i < a.len() {
            assert(a[i] == x);
        } else {
            assert(b[i - a.len()] == x);
        }
    }
}

/// A clash among the first names is the first clash of any longer run.
proof fn lemma_first_clash_stays(
    known: Seq<Seq<char>>,
    requested: Seq<Seq<char>>,
    n: int,
    m: int,
)
    requires
        0 <= n <= m,
        first_clash(known, requested, n) is Some,
    ensures
        first_clash(known, requested, m) == first_clash(known, requested, n),
    decreases m - n,
{
    if n < m {
        lemma_first_clash_stays(known, requested, n, m - 1);
    }
}

/// Where no name clashes, no name is known or requested before.
proof fn lemma_no_clash_at(known: Seq<Seq<char>>, requested: Seq<Seq<char>>, n: int, i: int)
    requires
        0 <= i < n,
        first_clash(known, requested, n) is None,
    ensures
        !(known + requested.take(i)).contains(requested[i]),
    decreases n,
{
    if i < n - 1 {
        lemma_no_clash_at(known, requested, n - 1, i);
    }
}

fn push_blanks(out: &mut String, n: usize)
    ensures
        final(out)@ == old(out)@ + blanks(n as int),
{
    let mut k: usize = 0;
    proof {
        reveal_strlit(" ");
        assert(out@ + blanks(0) =~= out@);
    }
    while k < n
        invariant
            k <= n,
            " "@ == seq![' '],
            out@ == old(out)@ + blanks(k as int),
        decreases n - k,
    {
        out.append(" ");
        proof {
            assert(out@ =~= old(out)@ + blanks(k + 1));
        }
        k += 1;
    }
}

/// Appends the text in the middle of a field of `width` characters.
fn push_centered(out: &mut String, text: &str, width: usize)
    ensures
        final(out)@ == old(out)@ + centered(text@, width as int),
{
    let length = text.unicode_len();
    if length >= width {
        out.append(text);
    } else {
        let pad = width - length;
        let before = pad / 2;
        push_blanks(out, before);
        out.append(text);
        push_blanks(out, pad - before);
        proof {
            assert(out@ =~= old(out)@ + centered(text@, width as int));
        }
    }
}

fn is_separator(c: char) -> (r: bool)
    ensures
        r == is_space(c),
{
    c == ' ' || c == '\t' || c == '\n' || c == '\x0C' || c == '\r'
}

/// The names of a list separated by white space.
pub fn split_words(text: &str) -> (r: Vec<String>)
    ensures
        texts(r@) == words(text@),
{
    let n = text.unicode_len();
    let mut out: Vec<String> = Vec::new();
    let mut start: usize = 0;
    let mut inside = false;
    let mut i: usize = 0;
    proof {
        assert(text@.take(0) =~= Seq::<char>::empty());
        assert(texts(out@) =~= Seq::<Seq<char>>::empty());
    }
    while i < n
        invariant
            i <= n,
            n == text@.len(),
            inside ==> start < i && !is_space(text@[i - 1]),
            !inside && i > 0 ==> is_space(text@[i - 1]),
            words(text@.take(i as int)) == texts(out@) + (if inside {
                seq![text@.subrange(start as int, i as int)]
            } else {
                Seq::empty()
            }),
        decreases n - i,
    {
        let c = text.get_char(i);
        let ghost before = words(text@.take(i as int));
        proof {
            assert(text@.take(i + 1).drop_last() =~= text@.take(i as int));
            assert(text@.take(i + 1).last() == c);
            if i > 0 {
                assert(text@.take(i + 1)[i - 1] == text@[i - 1]);
            }
        }
        if is_separator(c) {
            if inside {
                let word = String::from_str(text.substring_char(start, i));
                proof {
                    assert(texts(out@.push(word)) =~= texts(out@).push(word@));
                    assert(texts(out@).push(word@) + Seq::<Seq<char>>::empty() =~= before);
                }
                out.push(word);
                inside = false;
            }
        } else {
            if !inside {
                proof {
                    assert(texts(out@) + Seq::<Seq<char>>::empty() =~= texts(out@));
                    assert(seq![c] =~= text@.subrange(i as int, i + 1));
                    assert(texts(out@).push(seq![c]) =~= texts(out@) + seq![
                        text@.subrange(i as int, i + 1),
                    ]);
                }
                start = i;
                inside = true;
            } else {
                proof {
                    let run = text@.subrange(start as int, i as int);
                    assert(before.last() == run);
                    assert(before.drop_last() =~= texts(out@));
                    assert(run.push(c) =~= text@.subrange(start as int, i + 1));
                    assert(texts(out@).push(run.push(c)) =~= texts(out@) + seq![
                        text@.subrange(start as int, i + 1),
                    ]);
                }
            }
        }
        i += 1;
    }
    proof {
        assert(text@.take(n as int) =~= text@);
    }
    if inside {
        let word = String::from_str(text.substring_char(start, n));
        proof {
            assert(texts(out@.push(word)) =~= texts(out@).push(word@));
            assert(texts(out@).push(word@) =~= texts(out@) + seq![word@]);
        }
        out.push(word);
    } else {
        proof {
            assert(texts(out@) + Seq::<Seq<char>>::empty() =~= texts(out@));
        }
    }
    out
}

/// Appends the written form of the subexpression at `id` to `out`.
fn write_node(names: &Vec<String>, source: &Expressand, id: NodeId, out: &mut String)
    requires
        id.0 < source.spec_tree().spec_len(),
        source.spec_tree().term_at(id).well_formed(),
    ensures
        final(out)@ == old(out)@ + written(source.spec_tree().term_at(id), texts(names@)),
    decreases source.spec_tree().spec_len() - id.0,
{
    let tree = source.tree();
    let node = tree.node(id);
    let kind = node.kind();
    let children = node.children();
    let ghost term = tree.term_at(id);
    let ghost start = out@;
    let ghost known = texts(names@);
    proof {
        tree.lemma_term_at(id);
    }
    let (open, separator, close) = match kind {
        ExprKind::Var(v) => {
            if v.id < names.len() {
                out.append(names[v.id].as_str());
            } else {
                out.append("?");
            }
            return ;
        },
        ExprKind::Const(c) => {
            push_scalar(out, c);
            return ;
        },
        ExprKind::Add => ("(", "+", ")"),
        ExprKind::Mul => (" ", "*", " "),
        ExprKind::Pow => ("(", "^", ")"),
        ExprKind::Exp => (" e^", ",", " "),
        ExprKind::Ln => ("ln(", ",", ")"),
        ExprKind::Func(f) => {
            out.append(f.str());
            ("(", ",", ")")
        },
        ExprKind::Root => ("", "", ""),
    };
    out.append(open);
    let ghost opened = out@;
    let mut k: usize = 0;
    proof {
        assert(opened + joined(term.args, separator@, known, 0) =~= opened);
    }
    while k < children.len()
        invariant
            k <= children@.len(),
            id.0 < source.spec_tree().spec_len(),
            tree == source.spec_tree(),
            tree.wf(),
            term == tree.term_at(id),
            term.well_formed(),
            known == texts(names@),
            children@ == tree.nodes()[id.0 as int].children,
            term.args == done_of(tree.nodes(), id.0 as int, children@.len() as int),
            forall|w: int|
                0 <= w < children@.len() ==> id.0 < (#[trigger] children@[w]).0 < tree.spec_len(),
            out@ == opened + joined(term.args, separator@, known, k as int),
        decreases children@.len() - k,
    {
        proof {
            assert(child_of(tree.nodes(), id.0 as int, k as int) == children@[k as int].0);
            assert(term.args[k as int] == tree.term_at(children@[k as int]));
        }
        if k > 0 {
            out.append(separator);
        }
        write_node(names, source, children[k], out);
        proof {
            assert(out@ =~= opened + joined(term.args, separator@, known, k + 1));
        }
        k += 1;
    }
    out.append(close);
    proof {
        let body = joined(term.args, separator@, known, term.args.len() as int);
        reveal_strlit("");
        assert(""@ =~= Seq::<char>::empty());
        match kind {
            ExprKind::Func(f) => {
                assert(out@ =~= start + (f.name() + "("@ + body + ")"@));
            },
            ExprKind::Root => {
                assert(out@ =~= start + body);
            },
            _ => {
                assert(out@ =~= start + (open@ + body + close@));
            },
        }
    }
}

} // verus!
