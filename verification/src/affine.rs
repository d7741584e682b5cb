//! A linear calculus of pipelines: sequential composition and tensor of
//! typed stages, in which every variable is consumed exactly once.
//!
//! `t ; u` runs `t` and then `u`. For `t : A -o B` and `u : C -o D` the
//! tensor is `t (x) u : (A (x) C) -o (B (x) D)`. There is no weakening and
//! no contraction. Reduction only rewires: it keeps the leaves, the number
//! of nodes and the type.
use vstd::prelude::*;
use vstd::seq_lib::group_to_multiset_ensures;
use crate::order;
use crate::text;

verus! {

/// A type.
pub enum Ty {
    Base(u32),
    Pair(Box<Ty>, Box<Ty>),
    /// A stage from the first type to the second.
    Lin(Box<Ty>, Box<Ty>),
    Unit,
}

/// A term.
pub enum Term {
    Var(String),
    /// A named stage with its input and output type.
    Atom(String, Ty, Ty),
    Comp(Box<Term>, Box<Term>),
    Tensor(Box<Term>, Box<Term>),
    Unit,
}

/// A term, with names as texts.
pub enum TermView {
    Var(Seq<char>),
    Atom(Seq<char>, Ty, Ty),
    Comp(Box<TermView>, Box<TermView>),
    Tensor(Box<TermView>, Box<TermView>),
    Unit,
}

impl Term {
    /// The term with names as texts.
    pub open spec fn view(&self) -> TermView
        decreases self,
    {
        match *self {
            Term::Var(x) => TermView::Var(x@),
            Term::Atom(n, a, b) => TermView::Atom(n@, a, b),
            Term::Comp(a, b) => TermView::Comp(Box::new(a.view()), Box::new(b.view())),
            Term::Tensor(a, b) => TermView::Tensor(Box::new(a.view()), Box::new(b.view())),
            Term::Unit => TermView::Unit,
        }
    }
}

/// The type of stages from `from` to `to`.
pub open spec fn lin_type(from: Ty, to: Ty) -> Ty {
    Ty::Lin(Box::new(from), Box::new(to))
}

/// The type of pairs.
pub open spec fn pair_type(a: Ty, b: Ty) -> Ty {
    Ty::Pair(Box::new(a), Box::new(b))
}

impl Ty {
    /// The type of stages from `from` to `to`.
    pub fn lin(from: Ty, to: Ty) -> (r: Ty)
        ensures
            r == lin_type(from, to),
    {
        Ty::Lin(Box::new(from), Box::new(to))
    }

    /// The type of pairs.
    pub fn pair(a: Ty, b: Ty) -> (r: Ty)
        ensures
            r == pair_type(a, b),
    {
        Ty::Pair(Box::new(a), Box::new(b))
    }

    /// A copy.
    pub fn copy(&self) -> (r: Ty)
        ensures
            r == *self,
        decreases self,
    {
        match self {
            Ty::Base(n) => Ty::Base(*n),
            Ty::Pair(a, b) => Ty::Pair(Box::new(a.copy()), Box::new(b.copy())),
            Ty::Lin(a, b) => Ty::Lin(Box::new(a.copy()), Box::new(b.copy())),
            Ty::Unit => Ty::Unit,
        }
    }

    /// Equality.
    pub fn same(&self, other: &Ty) -> (r: bool)
        ensures
            r == (*self == *other),
        decreases self,
    {
        match (self, other) {
            (Ty::Base(m), Ty::Base(n)) => *m == *n,
            (Ty::Pair(a, b), Ty::Pair(c, d)) => a.same(c) && b.same(d),
            (Ty::Lin(a, b), Ty::Lin(c, d)) => a.same(c) && b.same(d),
            (Ty::Unit, Ty::Unit) => true,
            _ => false,
        }
    }
}

impl Term {
    /// A copy.
    pub fn copy(&self) -> (r: Term)
        ensures
            r@ == self@,
        decreases self,
    {
        match self {
            Term::Var(x) => Term::Var(x.clone()),
            Term::Atom(n, a, b) => Term::Atom(n.clone(), a.copy(), b.copy()),
            Term::Comp(a, b) => Term::Comp(Box::new(a.copy()), Box::new(b.copy())),
            Term::Tensor(a, b) => Term::Tensor(Box::new(a.copy()), Box::new(b.copy())),
            Term::Unit => Term::Unit,
        }
    }
}

// ---------------------------------------------------------------------
// Variables and leaves
// ---------------------------------------------------------------------

/// The variables of a term, from left to right.
pub open spec fn vars(t: TermView) -> Seq<Seq<char>>
    decreases t,
{
    match t {
        TermView::Var(x) => seq![x],
        TermView::Atom(_, _, _) | TermView::Unit => Seq::empty(),
        TermView::Comp(a, b) => vars(*a) + vars(*b),
        TermView::Tensor(a, b) => vars(*a) + vars(*b),
    }
}

/// Append the variables of a term, from left to right.
pub fn free_vars(t: &Term, out: &mut Vec<String>)
    ensures
        order::texts(final(out)@) == order::texts(old(out)@) + vars(t@),
    decreases t,
{
    let ghost start = order::texts(out@);
    match t {
        Term::Var(x) => {
            out.push(x.clone());
            assert(order::texts(out@) =~= start + vars(t@));
        },
        Term::Atom(_, _, _) | Term::Unit => {
            assert(start + vars(t@) =~= start);
        },
        Term::Comp(a, b) => {
            free_vars(a, out);
            free_vars(b, out);
            assert(order::texts(out@) =~= start + vars(t@));
        },
        Term::Tensor(a, b) => {
            free_vars(a, out);
            free_vars(b, out);
            assert(order::texts(out@) =~= start + vars(t@));
        },
    }
}

/// The number of nodes.
pub open spec fn nodes(t: TermView) -> nat
    decreases t,
{
    match t {
        TermView::Comp(a, b) => 1 + nodes(*a) + nodes(*b),
        TermView::Tensor(a, b) => 1 + nodes(*a) + nodes(*b),
        _ => 1,
    }
}

/// The number of nodes.
pub fn node_count(t: &Term) -> (n: usize)
    requires
        nodes(t@) <= usize::MAX,
    ensures
        n == nodes(t@),
    decreases t,
{
    match t {
        Term::Var(_) | Term::Atom(_, _, _) | Term::Unit => 1,
        Term::Comp(a, b) => 1 + node_count(a) + node_count(b),
        Term::Tensor(a, b) => 1 + node_count(a) + node_count(b),
    }
}

/// The leaves of a term, from left to right, each with its kind.
pub open spec fn leaves(t: TermView) -> Seq<Seq<char>>
    decreases t,
{
    match t {
        TermView::Var(x) => seq!["var:"@ + x],
        TermView::Atom(n, _, _) => seq!["atom:"@ + n],
        TermView::Unit => seq!["unit"@],
        TermView::Comp(a, b) => leaves(*a) + leaves(*b),
        TermView::Tensor(a, b) => leaves(*a) + leaves(*b),
    }
}

fn push_leaves(t: &Term, out: &mut Vec<String>)
    ensures
        order::texts(final(out)@) == order::texts(old(out)@) + leaves(t@),
    decreases t,
{
    let ghost start = order::texts(out@);
    match t {
        Term::Var(x) => {
            let mut s = "var:".to_string();
            s.append(x.as_str());
            out.push(s);
        },
        Term::Atom(n, _, _) => {
            let mut s = "atom:".to_string();
            s.append(n.as_str());
            out.push(s);
        },
        Term::Unit => {
            out.push("unit".to_string());
        },
        Term::Comp(a, b) => {
            push_leaves(a, out);
            push_leaves(b, out);
        },
        Term::Tensor(a, b) => {
            push_leaves(a, out);
            push_leaves(b, out);
        },
    }
    assert(order::texts(out@) =~= start + leaves(t@));
}

/// The leaves of a term, sorted.
pub fn leaf_multiset(t: &Term) -> (v: Vec<String>)
    ensures
        order::sorted(order::texts(v@)),
        order::texts(v@).to_multiset() == leaves(t@).to_multiset(),
{
    let mut v: Vec<String> = Vec::new();
    push_leaves(t, &mut v);
    proof {
        assert(order::texts(Seq::<String>::empty()) + leaves(t@) =~= leaves(t@));
        assert(order::texts(v@) =~= leaves(t@));
    }
    order::sort(&v)
}

// ---------------------------------------------------------------------
// Contexts
// ---------------------------------------------------------------------

/// A context: variables with their types.
pub open spec fn ctx_view(ctx: Seq<(String, Ty)>) -> Seq<(Seq<char>, Ty)> {
    ctx.map_values(|e: (String, Ty)| (e.0@, e.1))
}

/// The variables of a context.
pub open spec fn names(ctx: Seq<(Seq<char>, Ty)>) -> Seq<Seq<char>> {
    ctx.map_values(|e: (Seq<char>, Ty)| e.0)
}

/// The types of a context by variable.
pub open spec fn env(ctx: Seq<(Seq<char>, Ty)>) -> Map<Seq<char>, Ty>
    decreases ctx.len(),
{
    if ctx.len() == 0 {
        Map::empty()
    } else {
        env(ctx.drop_last()).insert(ctx.last().0, ctx.last().1)
    }
}

/// One way to split a context.
pub type Split = (Seq<(Seq<char>, Ty)>, Seq<(Seq<char>, Ty)>);

/// All ways to split a context in two, each entry on one side: first those
/// with the last entry on the right, then those with it on the left.
pub open spec fn splits_of(ctx: Seq<(Seq<char>, Ty)>) -> Seq<Split>
    decreases ctx.len(),
{
    if ctx.len() == 0 {
        seq![(Seq::empty(), Seq::empty())]
    } else {
        let before = splits_of(ctx.drop_last());
        let e = ctx.last();
        before.map_values(|s: Split| (s.0, s.1.push(e))) + before.map_values(
            |s: Split| (s.0.push(e), s.1),
        )
    }
}

/// What a list of splits stands for.
pub open spec fn split_views(v: Seq<(Vec<(String, Ty)>, Vec<(String, Ty)>)>) -> Seq<Split> {
    v.map_values(|s: (Vec<(String, Ty)>, Vec<(String, Ty)>)| (ctx_view(s.0@), ctx_view(s.1@)))
}

fn copy_entry(e: &(String, Ty)) -> (r: (String, Ty))
    ensures
        r.0@ == e.0@,
        r.1 == e.1,
{
    (e.0.clone(), e.1.copy())
}

/// A copy of a context.
fn copy_ctx(ctx: &Vec<(String, Ty)>) -> (r: Vec<(String, Ty)>)
    ensures
        ctx_view(r@) == ctx_view(ctx@),
{
    let mut r: Vec<(String, Ty)> = Vec::new();
    let ghost cv = ctx_view(ctx@);
    let mut i: usize = 0;
    assert(ctx_view(r@) =~= cv.take(0));
    while i < ctx.len()
        invariant
            i <= ctx@.len(),
            cv == ctx_view(ctx@),
            ctx_view(r@) == cv.take(i as int),
        decreases ctx@.len() - i,
    {
        let ghost had = r@;
        let e = copy_entry(&ctx[i]);
        r.push(e);
        i += 1;
        proof {
            assert(ctx_view(r@) =~= ctx_view(had).push((e.0@, e.1)));
            assert(cv.take(i as int) =~= cv.take(i - 1).push(cv[i - 1]));
        }
    }
    assert(cv.take(i as int) =~= cv);
    r
}

/// All ways to split a context in two.
pub fn splits(ctx: &Vec<(String, Ty)>) -> (out: Vec<(Vec<(String, Ty)>, Vec<(String, Ty)>)>)
    ensures
        split_views(out@) == splits_of(ctx_view(ctx@)),
{
    let mut out: Vec<(Vec<(String, Ty)>, Vec<(String, Ty)>)> = Vec::new();
    out.push((Vec::new(), Vec::new()));
    let ghost cv = ctx_view(ctx@);
    let mut i: usize = 0;
    proof {
        assert(ctx_view(Seq::<(String, Ty)>::empty()) =~= Seq::empty());
        assert(split_views(out@) =~= splits_of(cv.take(0)));
    }
    while i < ctx.len()
        invariant
            i <= ctx@.len(),
            cv == ctx_view(ctx@),
            split_views(out@) == splits_of(cv.take(i as int)),
        decreases ctx@.len() - i,
    {
        let ghost before = split_views(out@);
        let ghost e = cv[i as int];
        let n: usize = out.len();
        let mut next: Vec<(Vec<(String, Ty)>, Vec<(String, Ty)>)> = Vec::new();
        let ghost rights = before.map_values(|s: Split| (s.0, s.1.push(e)));
        let ghost lefts = before.map_values(|s: Split| (s.0.push(e), s.1));
        let mut k: usize = 0;
        assert(split_views(next@) =~= rights.take(0));
        while k < n
            invariant
                k <= n,
                n == out@.len(),
                i < ctx@.len(),
                cv == ctx_view(ctx@),
                e == cv[i as int],
                before == split_views(out@),
                rights == before.map_values(|s: Split| (s.0, s.1.push(e))),
                split_views(next@) == rights.take(k as int),
            decreases n - k,
        {
            let ghost had = next@;
            let l = copy_ctx(&out[k].0);
            let mut r = copy_ctx(&out[k].1);
            let ghost r0 = r@;
            let entry = copy_entry(&ctx[i]);
            r.push(entry);
            proof {
                assert(ctx_view(r@) =~= ctx_view(r0).push(e));
                assert(before[k as int] == (ctx_view(out@[k as int].0@), ctx_view(
                    out@[k as int].1@,
                )));
            }
            let ghost made = (ctx_view(l@), ctx_view(r@));
            next.push((l, r));
            k += 1;
            proof {
                assert(split_views(next@) =~= split_views(had).push(made));
                assert(rights.take(k as int) =~= rights.take(k - 1).push(rights[k - 1]));
            }
        }
        assert(rights.take(n as int) =~= rights);
        k = 0;
        assert(split_views(next@) =~= rights + lefts.take(0));
        while k < n
            invariant
                k <= n,
                n == out@.len(),
                i < ctx@.len(),
                cv == ctx_view(ctx@),
                e == cv[i as int],
                before == split_views(out@),
                lefts == before.map_values(|s: Split| (s.0.push(e), s.1)),
                split_views(next@) == rights + lefts.take(k as int),
            decreases n - k,
        {
            let ghost had = next@;
            let mut l = copy_ctx(&out[k].0);
            let r = copy_ctx(&out[k].1);
            let ghost l0 = l@;
            let entry = copy_entry(&ctx[i]);
            l.push(entry);
            proof {
                assert(ctx_view(l@) =~= ctx_view(l0).push(e));
                assert(before[k as int] == (ctx_view(out@[k as int].0@), ctx_view(
                    out@[k as int].1@,
                )));
            }
            let ghost made = (ctx_view(l@), ctx_view(r@));
            next.push((l, r));
            k += 1;
            proof {
                assert(split_views(next@) =~= split_views(had).push(made));
                assert(lefts.take(k as int) =~= lefts.take(k - 1).push(lefts[k - 1]));
                assert(split_views(next@) =~= rights + lefts.take(k as int));
            }
        }
        assert(lefts.take(n as int) =~= lefts);
        out = next;
        i += 1;
        proof {
            assert(cv.take(i as int).drop_last() =~= cv.take(i - 1));
            assert(cv.take(i as int).last() == e);
        }
    }
    assert(cv.take(i as int) =~= cv);
    out
}

// ---------------------------------------------------------------------
// Typing
// ---------------------------------------------------------------------

/// The type of a sequence of two stages.
pub open spec fn comp_type(f: Option<Ty>, g: Option<Ty>) -> Option<Ty> {
    match (f, g) {
        (Some(Ty::Lin(a, b)), Some(Ty::Lin(b2, c))) => if b == b2 {
            Some(Ty::Lin(a, c))
        } else {
            None
        },
        _ => None,
    }
}

/// The type of two stages side by side.
pub open spec fn tensor_type(f: Option<Ty>, g: Option<Ty>) -> Option<Ty> {
    match (f, g) {
        (Some(Ty::Lin(a, b)), Some(Ty::Lin(c, d))) => Some(
            lin_type(pair_type(*a, *c), pair_type(*b, *d)),
        ),
        _ => None,
    }
}

/// The type of a term whose variables have the given types.
pub open spec fn synth(e: Map<Seq<char>, Ty>, t: TermView) -> Option<Ty>
    decreases t,
{
    match t {
        TermView::Unit => Some(lin_type(Ty::Unit, Ty::Unit)),
        TermView::Atom(_, a, b) => Some(lin_type(a, b)),
        TermView::Var(x) => if e.contains_key(x) {
            Some(e[x])
        } else {
            None
        },
        TermView::Comp(f, g) => comp_type(synth(e, *f), synth(e, *g)),
        TermView::Tensor(f, g) => tensor_type(synth(e, *f), synth(e, *g)),
    }
}

/// Every variable of the context is used exactly once, and no other.
pub open spec fn linear(ctx: Seq<(Seq<char>, Ty)>, t: TermView) -> bool {
    &&& names(ctx).no_duplicates()
    &&& vars(t).no_duplicates()
    &&& vars(t).to_set() == names(ctx).to_set()
}

/// The type of a term in a context, if it has one: the term must be linear
/// in the context.
pub open spec fn typed(ctx: Seq<(Seq<char>, Ty)>, t: TermView) -> Option<Ty> {
    if linear(ctx, t) {
        synth(env(ctx), t)
    } else {
        None
    }
}

proof fn lemma_names_push(ctx: Seq<(Seq<char>, Ty)>, e: (Seq<char>, Ty))
    ensures
        names(ctx.push(e)) == names(ctx).push(e.0),
        env(ctx.push(e)) == env(ctx).insert(e.0, e.1),
{
    assert(names(ctx.push(e)) =~= names(ctx).push(e.0));
    assert(ctx.push(e).drop_last() =~= ctx);
}

proof fn lemma_env_dom(ctx: Seq<(Seq<char>, Ty)>)
    ensures
        forall|x: Seq<char>| #[trigger] env(ctx).contains_key(x) <==> names(ctx).contains(x),
    decreases ctx.len(),
{
    if ctx.len() == 0 {
    } else {
        let rest = ctx.drop_last();
        lemma_env_dom(rest);
        lemma_names_push(rest, ctx.last());
        assert(rest.push(ctx.last()) =~= ctx);
        assert forall|x: Seq<char>| #[trigger] env(ctx).contains_key(x) <==> names(
            ctx,
        ).contains(x) by {
            lemma_contains_push(names(rest), ctx.last().0, x);
            assert(env(rest).contains_key(x) <==> names(rest).contains(x));
        }
    }
}

proof fn lemma_contains_push(s: Seq<Seq<char>>, y: Seq<char>, x: Seq<char>)
    ensures
        s.push(y).contains(x) <==> s.contains(x) || x == y,
{
    if s.contains(x) {
        let i = choose|i: int| 0 <= i < s.len() && s[i] == x;
        assert(s.push(y)[i] == x);
    }
    if x == y {
        assert(s.push(y)[s.len() as int] == x);
    }
    if s.push(y).contains(x) {
        let i = choose|i: int| 0 <= i < s.push(y).len() && s.push(y)[i] == x;
        if i < s.len() {
            assert(s[i] == x);
        }
    }
}

/// The two sides of a split share the context out between them.
pub open spec fn shared_out(ctx: Seq<(Seq<char>, Ty)>, s: Split) -> bool {
    &&& forall|x: Seq<char>|
        #[trigger] names(ctx).contains(x) <==> names(s.0).contains(x) || names(s.1).contains(x)
    &&& names(ctx).no_duplicates() ==> {
        &&& names(s.0).no_duplicates()
        &&& names(s.1).no_duplicates()
        &&& forall|x: Seq<char>| !(#[trigger] names(s.0).contains(x) && names(s.1).contains(x))
        &&& forall|x: Seq<char>|
            #[trigger] names(s.0).contains(x) ==> env(s.0)[x] == env(ctx)[x]
        &&& forall|x: Seq<char>|
            #[trigger] names(s.1).contains(x) ==> env(s.1)[x] == env(ctx)[x]
    }
}

proof fn lemma_nodup_push(s: Seq<Seq<char>>, y: Seq<char>)
    ensures
        s.push(y).no_duplicates() <==> s.no_duplicates() && !s.contains(y),
{
    let p = s.push(y);
    if p.no_duplicates() {
        assert forall|i: int, j: int| 0 <= i < s.len() && 0 <= j < s.len() && i != j implies s[i]
            != s[j] by {
            assert(p[i] == s[i] && p[j] == s[j]);
        }
        if s.contains(y) {
            let i = choose|i: int| 0 <= i < s.len() && s[i] == y;
            assert(p[i] == p[s.len() as int]);
        }
    }
    if s.no_duplicates() && !s.contains(y) {
        assert forall|i: int, j: int| 0 <= i < p.len() && 0 <= j < p.len() && i != j implies p[i]
            != p[j] by {
            if i == s.len() {
                assert(s.contains(s[j]));
            } else if j == s.len() {
                assert(s.contains(s[i]));
            }
        }
    }
}

proof fn lemma_shared_step(
    rest: Seq<(Seq<char>, Ty)>,
    e: (Seq<char>, Ty),
    s: Split,
    left: bool,
)
    requires
        shared_out(rest, s),
    ensures
        shared_out(
            rest.push(e),
            if left {
                (s.0.push(e), s.1)
            } else {
                (s.0, s.1.push(e))
            },
        ),
{
    let ctx = rest.push(e);
    let t = if left {
        (s.0.push(e), s.1)
    } else {
        (s.0, s.1.push(e))
    };
    lemma_names_push(rest, e);
    lemma_names_push(s.0, e);
    lemma_names_push(s.1, e);
    assert forall|x: Seq<char>| #[trigger] names(ctx).contains(x) <==> names(t.0).contains(x)
        || names(t.1).contains(x) by {
        lemma_contains_push(names(rest), e.0, x);
        lemma_contains_push(names(s.0), e.0, x);
        lemma_contains_push(names(s.1), e.0, x);
        assert(names(rest).contains(x) <==> names(s.0).contains(x) || names(s.1).contains(x));
    }
    if names(ctx).no_duplicates() {
        lemma_nodup_push(names(rest), e.0);
        lemma_nodup_push(names(s.0), e.0);
        lemma_nodup_push(names(s.1), e.0);
        assert(names(rest).contains(e.0) <==> names(s.0).contains(e.0) || names(s.1).contains(
            e.0,
        ));
        assert forall|x: Seq<char>| !(#[trigger] names(t.0).contains(x) && names(t.1).contains(
            x,
        )) by {
            lemma_contains_push(names(s.0), e.0, x);
            lemma_contains_push(names(s.1), e.0, x);
            assert(!(names(s.0).contains(x) && names(s.1).contains(x)));
        }
        assert forall|x: Seq<char>| #[trigger] names(t.0).contains(x) implies env(t.0)[x] == env(
            ctx,
        )[x] by {
            lemma_contains_push(names(s.0), e.0, x);
        }
        assert forall|x: Seq<char>| #[trigger] names(t.1).contains(x) implies env(t.1)[x] == env(
            ctx,
        )[x] by {
            lemma_contains_push(names(s.1), e.0, x);
        }
    }
}

proof fn lemma_split_shares(ctx: Seq<(Seq<char>, Ty)>, k: int)
    requires
        0 <= k < splits_of(ctx).len(),
    ensures
        shared_out(ctx, splits_of(ctx)[k]),
    decreases ctx.len(),
{
    if ctx.len() == 0 {
        let s = splits_of(ctx)[k];
        assert(names(s.0) =~= Seq::empty());
        assert(names(ctx) =~= Seq::empty());
    } else {
        let rest = ctx.drop_last();
        let before = splits_of(rest);
        let n = before.len() as int;
        assert(rest.push(ctx.last()) =~= ctx);
        if k < n {
            lemma_split_shares(rest, k);
            lemma_shared_step(rest, ctx.last(), before[k], false);
        } else {
            lemma_split_shares(rest, k - n);
            lemma_shared_step(rest, ctx.last(), before[k - n], true);
        }
    }
}

/// For every set of names some split has exactly these on the left.
proof fn lemma_split_exists(ctx: Seq<(Seq<char>, Ty)>, left: Set<Seq<char>>) -> (k: int)
    ensures
        0 <= k < splits_of(ctx).len(),
        forall|x: Seq<char>|
            #[trigger] names(splits_of(ctx)[k].0).contains(x) <==> names(ctx).contains(x)
                && left.contains(x),
        forall|x: Seq<char>|
            #[trigger] names(splits_of(ctx)[k].1).contains(x) <==> names(ctx).contains(x)
                && !left.contains(x),
    decreases ctx.len(),
{
    if ctx.len() == 0 {
        assert(names(splits_of(ctx)[0].0) =~= Seq::empty());
        assert(names(splits_of(ctx)[0].1) =~= Seq::empty());
        assert(names(ctx) =~= Seq::empty());
        0
    } else {
        let rest = ctx.drop_last();
        let e = ctx.last();
        let before = splits_of(rest);
        let j = lemma_split_exists(rest, left);
        let k = if left.contains(e.0) {
            j + before.len()
        } else {
            j
        };
        let s = splits_of(ctx)[k];
        assert(rest.push(e) =~= ctx);
        lemma_names_push(rest, e);
        lemma_names_push(before[j].0, e);
        lemma_names_push(before[j].1, e);
        assert forall|x: Seq<char>| #[trigger] names(s.0).contains(x) <==> names(ctx).contains(x)
            && left.contains(x) by {
            lemma_contains_push(names(rest), e.0, x);
            lemma_contains_push(names(before[j].0), e.0, x);
            assert(names(before[j].0).contains(x) <==> names(rest).contains(x) && left.contains(
                x,
            ));
        }
        assert forall|x: Seq<char>| #[trigger] names(s.1).contains(x) <==> names(ctx).contains(x)
            && !left.contains(x) by {
            lemma_contains_push(names(rest), e.0, x);
            lemma_contains_push(names(before[j].1), e.0, x);
            assert(names(before[j].1).contains(x) <==> names(rest).contains(x) && !left.contains(
                x,
            ));
        }
        k
    }
}

/// Only the types of a term's own variables matter.
proof fn lemma_synth_agree(e: Map<Seq<char>, Ty>, d: Map<Seq<char>, Ty>, t: TermView)
    requires
        forall|x: Seq<char>|
            #[trigger] vars(t).contains(x) ==> e.contains_key(x) && d.contains_key(x) && e[x]
                == d[x],
    ensures
        synth(e, t) == synth(d, t),
    decreases t,
{
    match t {
        TermView::Var(x) => {
            assert(vars(t)[0] == x);
            assert(vars(t).contains(x));
        },
        TermView::Comp(f, g) => {
            lemma_part_agree(e, d, *f, *g, vars(t));
            lemma_synth_agree(e, d, *f);
            lemma_synth_agree(e, d, *g);
        },
        TermView::Tensor(f, g) => {
            lemma_part_agree(e, d, *f, *g, vars(t));
            lemma_synth_agree(e, d, *f);
            lemma_synth_agree(e, d, *g);
        },
        _ => {},
    }
}

proof fn lemma_part_agree(
    e: Map<Seq<char>, Ty>,
    d: Map<Seq<char>, Ty>,
    f: TermView,
    g: TermView,
    all: Seq<Seq<char>>,
)
    requires
        all == vars(f) + vars(g),
        forall|x: Seq<char>|
            #[trigger] all.contains(x) ==> e.contains_key(x) && d.contains_key(x) && e[x] == d[x],
    ensures
        forall|x: Seq<char>|
            #[trigger] vars(f).contains(x) ==> e.contains_key(x) && d.contains_key(x) && e[x]
                == d[x],
        forall|x: Seq<char>|
            #[trigger] vars(g).contains(x) ==> e.contains_key(x) && d.contains_key(x) && e[x]
                == d[x],
{
    assert forall|x: Seq<char>| #[trigger] vars(f).contains(x) implies e.contains_key(x)
        && d.contains_key(x) && e[x] == d[x] by {
        lemma_contains_concat(vars(f), vars(g), x);
        assert(all.contains(x));
    }
    assert forall|x: Seq<char>| #[trigger] vars(g).contains(x) implies e.contains_key(x)
        && d.contains_key(x) && e[x] == d[x] by {
        lemma_contains_concat(vars(f), vars(g), x);
        assert(all.contains(x));
    }
}

proof fn lemma_contains_concat(a: Seq<Seq<char>>, b: Seq<Seq<char>>, x: Seq<char>)
    ensures
        (a + b).contains(x) <==> a.contains(x) || b.contains(x),
{
    if a.contains(x) {
        let i = choose|i: int| 0 <= i < a.len() && a[i] == x;
        assert((a + b)[i] == x);
    }
    if b.contains(x) {
        let i = choose|i: int| 0 <= i < b.len() && b[i] == x;
        assert((a + b)[a.len() + i] == x);
    }
    if (a + b).contains(x) {
        let i = choose|i: int| 0 <= i < (a + b).len() && (a + b)[i] == x;
        if i < a.len() {
            assert(a[i] == x);
        } else {
            assert(b[i - a.len()] == x);
        }
    }
}

proof fn lemma_nodup_concat(a: Seq<Seq<char>>, b: Seq<Seq<char>>)
    ensures
        (a + b).no_duplicates() <==> a.no_duplicates() && b.no_duplicates() && (forall|
            x: Seq<char>,
        | !(#[trigger] a.contains(x) && b.contains(x))),
{
    let s = a + b;
    if s.no_duplicates() {
        assert forall|i: int, j: int| 0 <= i < a.len() && 0 <= j < a.len() && i != j implies a[i]
            != a[j] by {
            assert(s[i] == a[i] && s[j] == a[j]);
        }
        assert forall|i: int, j: int| 0 <= i < b.len() && 0 <= j < b.len() && i != j implies b[i]
            != b[j] by {
            assert(s[a.len() + i] == b[i] && s[a.len() + j] == b[j]);
        }
        assert forall|x: Seq<char>| !(#[trigger] a.contains(x) && b.contains(x)) by {
            if a.contains(x) && b.contains(x) {
                let i = choose|i: int| 0 <= i < a.len() && a[i] == x;
                let j = choose|j: int| 0 <= j < b.len() && b[j] == x;
                assert(s[i] == s[a.len() + j]);
            }
        }
    }
    if a.no_duplicates() && b.no_duplicates() && (forall|x: Seq<char>| !(#[trigger] a.contains(x)
        && b.contains(x))) {
        assert forall|i: int, j: int| 0 <= i < s.len() && 0 <= j < s.len() && i != j implies s[i]
            != s[j] by {
            if i < a.len() && j >= a.len() {
                assert(a.contains(a[i]) && b.contains(b[j - a.len()]));
            } else if j < a.len() && i >= a.len() {
                assert(a.contains(a[j]) && b.contains(b[i - a.len()]));
            }
        }
    }
}

/// The pieces of a two-part term are linear in a split exactly when the
/// whole is linear in the context.
proof fn lemma_linear_parts(
    ctx: Seq<(Seq<char>, Ty)>,
    s: Split,
    f: TermView,
    g: TermView,
    t: TermView,
)
    requires
        vars(t) == vars(f) + vars(g),
        names(ctx).no_duplicates(),
        shared_out(ctx, s),
        linear(s.0, f),
        linear(s.1, g),
    ensures
        linear(ctx, t),
        synth(env(s.0), f) == synth(env(ctx), f),
        synth(env(s.1), g) == synth(env(ctx), g),
{
    let a = vars(f);
    let b = vars(g);
    assert forall|x: Seq<char>| a.contains(x) <==> names(s.0).contains(x) by {
        assert(a.to_set().contains(x) <==> names(s.0).to_set().contains(x));
    }
    assert forall|x: Seq<char>| b.contains(x) <==> names(s.1).contains(x) by {
        assert(b.to_set().contains(x) <==> names(s.1).to_set().contains(x));
    }
    assert forall|x: Seq<char>| !(#[trigger] a.contains(x) && b.contains(x)) by {
        assert(!(names(s.0).contains(x) && names(s.1).contains(x)));
    }
    lemma_nodup_concat(a, b);
    assert(vars(t).to_set() =~= names(ctx).to_set()) by {
        assert forall|x: Seq<char>| vars(t).to_set().contains(x) <==> names(
            ctx,
        ).to_set().contains(x) by {
            lemma_contains_concat(a, b, x);
            assert(names(ctx).contains(x) <==> names(s.0).contains(x) || names(s.1).contains(x));
        }
    }
    lemma_env_dom(ctx);
    lemma_env_dom(s.0);
    lemma_env_dom(s.1);
    assert forall|x: Seq<char>| #[trigger] vars(f).contains(x) implies env(s.0).contains_key(x)
        && env(ctx).contains_key(x) && env(s.0)[x] == env(ctx)[x] by {
        assert(names(s.0).contains(x));
        assert(names(ctx).contains(x));
    }
    assert forall|x: Seq<char>| #[trigger] vars(g).contains(x) implies env(s.1).contains_key(x)
        && env(ctx).contains_key(x) && env(s.1)[x] == env(ctx)[x] by {
        assert(names(s.1).contains(x));
        assert(names(ctx).contains(x));
    }
    lemma_synth_agree(env(s.0), env(ctx), f);
    lemma_synth_agree(env(s.1), env(ctx), g);
}

/// A linear term finds its split.
proof fn lemma_linear_split(
    ctx: Seq<(Seq<char>, Ty)>,
    f: TermView,
    g: TermView,
    t: TermView,
) -> (k: int)
    requires
        vars(t) == vars(f) + vars(g),
        linear(ctx, t),
    ensures
        0 <= k < splits_of(ctx).len(),
        linear(splits_of(ctx)[k].0, f),
        linear(splits_of(ctx)[k].1, g),
        synth(env(splits_of(ctx)[k].0), f) == synth(env(ctx), f),
        synth(env(splits_of(ctx)[k].1), g) == synth(env(ctx), g),
{
    let a = vars(f);
    let b = vars(g);
    let k = lemma_split_exists(ctx, a.to_set());
    let s = splits_of(ctx)[k];
    lemma_split_shares(ctx, k);
    lemma_nodup_concat(a, b);
    assert(a.to_set() =~= names(s.0).to_set()) by {
        assert forall|x: Seq<char>| a.to_set().contains(x) <==> names(s.0).to_set().contains(x) by {
            lemma_contains_concat(a, b, x);
            assert(vars(t).to_set().contains(x) <==> names(ctx).to_set().contains(x));
            assert(names(s.0).contains(x) <==> names(ctx).contains(x) && a.to_set().contains(x));
        }
    }
    assert(b.to_set() =~= names(s.1).to_set()) by {
        assert forall|x: Seq<char>| b.to_set().contains(x) <==> names(s.1).to_set().contains(x) by {
            lemma_contains_concat(a, b, x);
            assert(vars(t).to_set().contains(x) <==> names(ctx).to_set().contains(x));
            assert(names(s.1).contains(x) <==> names(ctx).contains(x) && !a.to_set().contains(x));
            assert(!(a.contains(x) && b.contains(x)));
        }
    }
    lemma_linear_parts(ctx, s, f, g, t);
    k
}

fn distinct_names(ctx: &Vec<(String, Ty)>) -> (r: bool)
    ensures
        r == names(ctx_view(ctx@)).no_duplicates(),
{
    let ghost ns = names(ctx_view(ctx@));
    let mut i: usize = 0;
    while i < ctx.len()
        invariant
            i <= ctx@.len(),
            ns == names(ctx_view(ctx@)),
            forall|a: int, b: int| 0 <= a < b < i ==> ns[a] != ns[b],
        decreases ctx@.len() - i,
    {
        let mut j: usize = 0;
        while j < i
            invariant
                j <= i,
                i < ctx@.len(),
                ns == names(ctx_view(ctx@)),
                forall|a: int| 0 <= a < j ==> ns[a] != ns[i as int],
            decreases i - j,
        {
            assert(ns[j as int] == ctx@[j as int].0@);
            assert(ns[i as int] == ctx@[i as int].0@);
            if text::same_text(ctx[j].0.as_str(), ctx[i].0.as_str()) {
                return false;
            }
            j += 1;
        }
        i += 1;
    }
    true
}

/// The type of a term in a context, if it has one. Every variable of the
/// context must be used exactly once.
pub fn infer(ctx: &Vec<(String, Ty)>, t: &Term) -> (r: Option<Ty>)
    ensures
        r == typed(ctx_view(ctx@), t@),
    decreases t,
{
    let ghost cv = ctx_view(ctx@);
    if !distinct_names(ctx) {
        return None;
    }
    match t {
        Term::Unit => {
            proof {
                lemma_closed(cv, t@);
            }
            if ctx.len() == 0 {
                Some(Ty::lin(Ty::Unit, Ty::Unit))
            } else {
                None
            }
        },
        Term::Atom(_, a, b) => {
            proof {
                lemma_closed(cv, t@);
            }
            if ctx.len() == 0 {
                Some(Ty::lin(a.copy(), b.copy()))
            } else {
                None
            }
        },
        Term::Var(x) => {
            proof {
                lemma_variable(cv, x@);
            }
            if ctx.len() == 1 {
                assert(cv[0] == (ctx@[0].0@, ctx@[0].1));
                if text::same_text(ctx[0].0.as_str(), x.as_str()) {
                    return Some(ctx[0].1.copy());
                }
            }
            None
        },
        Term::Comp(f, g) => {
            let list = splits(ctx);
            let ghost sv = splits_of(cv);
            let mut k: usize = 0;
            while k < list.len()
                invariant
                    k <= list@.len(),
                    cv == ctx_view(ctx@),
                    names(cv).no_duplicates(),
                    sv == split_views(list@),
                    sv == splits_of(cv),
                    t@ == TermView::Comp(Box::new(f@), Box::new(g@)),
                    *t == Term::Comp(*f, *g),
                    forall|j: int|
                        0 <= j < k ==> comp_type(
                            typed((#[trigger] sv[j]).0, f@),
                            typed(sv[j].1, g@),
                        ) is None,
                decreases list@.len() - k,
            {
                assert(sv[k as int] == (ctx_view(list@[k as int].0@), ctx_view(
                    list@[k as int].1@,
                )));
                let tf = infer(&list[k].0, f);
                let tg = infer(&list[k].1, g);
                if let (Some(Ty::Lin(a, b)), Some(Ty::Lin(b2, c))) = (tf, tg) {
                    if b.same(&b2) {
                        proof {
                            lemma_split_shares(cv, k as int);
                            lemma_linear_parts(cv, sv[k as int], f@, g@, t@);
                        }
                        return Some(Ty::Lin(a, c));
                    }
                }
                k += 1;
            }
            proof {
                if linear(cv, t@) && synth(env(cv), t@) is Some {
                    let j = lemma_linear_split(cv, f@, g@, t@);
                    assert(comp_type(typed(sv[j].0, f@), typed(sv[j].1, g@)) is Some);
                }
            }
            None
        },
        Term::Tensor(f, g) => {
            let list = splits(ctx);
            let ghost sv = splits_of(cv);
            let mut k: usize = 0;
            while k < list.len()
                invariant
                    k <= list@.len(),
                    cv == ctx_view(ctx@),
                    names(cv).no_duplicates(),
                    sv == split_views(list@),
                    sv == splits_of(cv),
                    t@ == TermView::Tensor(Box::new(f@), Box::new(g@)),
                    *t == Term::Tensor(*f, *g),
                    forall|j: int|
                        0 <= j < k ==> tensor_type(
                            typed((#[trigger] sv[j]).0, f@),
                            typed(sv[j].1, g@),
                        ) is None,
                decreases list@.len() - k,
            {
                assert(sv[k as int] == (ctx_view(list@[k as int].0@), ctx_view(
                    list@[k as int].1@,
                )));
                let tf = infer(&list[k].0, f);
                let tg = infer(&list[k].1, g);
                if let (Some(Ty::Lin(a, b)), Some(Ty::Lin(c, d))) = (tf, tg) {
                    proof {
                        lemma_split_shares(cv, k as int);
                        lemma_linear_parts(cv, sv[k as int], f@, g@, t@);
                    }
                    return Some(Ty::lin(Ty::Pair(a, c), Ty::Pair(b, d)));
                }
                k += 1;
            }
            proof {
                if linear(cv, t@) && synth(env(cv), t@) is Some {
                    let j = lemma_linear_split(cv, f@, g@, t@);
                    assert(tensor_type(typed(sv[j].0, f@), typed(sv[j].1, g@)) is Some);
                }
            }
            None
        },
    }
}

/// A term without variables is linear in the empty context only.
proof fn lemma_closed(ctx: Seq<(Seq<char>, Ty)>, t: TermView)
    requires
        vars(t).len() == 0,
        names(ctx).no_duplicates(),
    ensures
        linear(ctx, t) <==> ctx.len() == 0,
{
    if ctx.len() == 0 {
        assert(vars(t).to_set() =~= names(ctx).to_set());
    } else {
        assert(names(ctx).contains(names(ctx)[0]));
        assert(names(ctx).to_set().contains(names(ctx)[0]));
        assert(!vars(t).to_set().contains(names(ctx)[0]));
    }
}

/// A variable is linear in the context that holds just it.
proof fn lemma_variable(ctx: Seq<(Seq<char>, Ty)>, x: Seq<char>)
    requires
        names(ctx).no_duplicates(),
    ensures
        linear(ctx, TermView::Var(x)) <==> ctx.len() == 1 && ctx[0].0 == x,
        ctx.len() == 1 && ctx[0].0 == x ==> synth(env(ctx), TermView::Var(x)) == Some(ctx[0].1),
{
    let v = vars(TermView::Var(x));
    let ns = names(ctx);
    assert(v[0] == x);
    assert(v.contains(x));
    if ctx.len() == 1 && ctx[0].0 == x {
        assert(v =~= ns);
        assert(ctx.drop_last() =~= Seq::empty());
    }
    if linear(ctx, TermView::Var(x)) {
        assert(v.to_set().contains(x));
        assert(ns.to_set().contains(x));
        let i = choose|i: int| 0 <= i < ns.len() && ns[i] == x;
        if ns.len() > 1 {
            let j = if i == 0 {
                1int
            } else {
                0int
            };
            assert(ns.to_set().contains(ns[j]));
            assert(v.to_set().contains(ns[j]));
            assert(ns[j] == x);
        }
        assert(ns[i] == ctx[i].0);
    }
}

/// A well-typed term uses every variable of its context exactly once, and
/// no other.
pub proof fn law_every_variable_is_used_once(ctx: Seq<(Seq<char>, Ty)>, t: TermView, x: Seq<char>)
    requires
        typed(ctx, t) is Some,
    ensures
        names(ctx).contains(x) ==> vars(t).to_multiset().count(x) == 1,
        !names(ctx).contains(x) ==> vars(t).to_multiset().count(x) == 0,
{
    broadcast use group_to_multiset_ensures;

    vars(t).lemma_multiset_has_no_duplicates();
    assert(vars(t).to_set().contains(x) <==> names(ctx).to_set().contains(x));
    assert(vars(t).contains(x) <==> names(ctx).contains(x));
}

/// No contraction: a term that uses a variable twice has no type.
pub proof fn law_contraction_is_rejected(ctx: Seq<(Seq<char>, Ty)>, x: Seq<char>)
    ensures
        typed(
            ctx,
            TermView::Tensor(Box::new(TermView::Var(x)), Box::new(TermView::Var(x))),
        ) is None,
{
    let t = TermView::Tensor(Box::new(TermView::Var(x)), Box::new(TermView::Var(x)));
    assert(vars(TermView::Var(x))[0] == x);
    assert(vars(t)[0] == vars(t)[1]);
}

/// No weakening: a context with a variable that the term does not use gives
/// it no type.
pub proof fn law_weakening_is_rejected(ctx: Seq<(Seq<char>, Ty)>, t: TermView, x: Seq<char>)
    requires
        names(ctx).contains(x),
        !vars(t).contains(x),
    ensures
        typed(ctx, t) is None,
{
    assert(names(ctx).to_set().contains(x));
    assert(!vars(t).to_set().contains(x));
}

// ---------------------------------------------------------------------
// Reduction
// ---------------------------------------------------------------------

/// One step: nested composition leans to the right, and a composition of
/// tensors becomes the tensor of compositions; otherwise the first part
/// that can step does.
pub open spec fn step_of(t: TermView) -> Option<TermView>
    decreases t,
{
    match t {
        TermView::Comp(a, b) => match (*a, *b) {
            (TermView::Comp(f, g), _) => Some(
                TermView::Comp(f, Box::new(TermView::Comp(g, b))),
            ),
            (TermView::Tensor(f, g), TermView::Tensor(x, y)) => Some(
                TermView::Tensor(
                    Box::new(TermView::Comp(f, x)),
                    Box::new(TermView::Comp(g, y)),
                ),
            ),
            _ => match step_of(*a) {
                Some(a1) => Some(TermView::Comp(Box::new(a1), b)),
                None => match step_of(*b) {
                    Some(b1) => Some(TermView::Comp(a, Box::new(b1))),
                    None => None,
                },
            },
        },
        TermView::Tensor(a, b) => match step_of(*a) {
            Some(a1) => Some(TermView::Tensor(Box::new(a1), b)),
            None => match step_of(*b) {
                Some(b1) => Some(TermView::Tensor(a, Box::new(b1))),
                None => None,
            },
        },
        _ => None,
    }
}

/// What an optional term stands for.
pub open spec fn opt_view(t: Option<Term>) -> Option<TermView> {
    match t {
        Some(x) => Some(x@),
        None => None,
    }
}

/// One reduction step, if one applies.
pub fn step(t: &Term) -> (r: Option<Term>)
    ensures
        opt_view(r) == step_of(t@),
    decreases t,
{
    reveal_with_fuel(Term::view, 4);
    match t {
        Term::Comp(a, b) => {
            if let Term::Comp(f, g) = &**a {
                return Some(
                    Term::Comp(
                        Box::new(f.copy()),
                        Box::new(Term::Comp(Box::new(g.copy()), Box::new(b.copy()))),
                    ),
                );
            }
            if let Term::Tensor(f, g) = &**a {
                if let Term::Tensor(x, y) = &**b {
                    return Some(
                        Term::Tensor(
                            Box::new(Term::Comp(Box::new(f.copy()), Box::new(x.copy()))),
                            Box::new(Term::Comp(Box::new(g.copy()), Box::new(y.copy()))),
                        ),
                    );
                }
            }
            match step(a) {
                Some(a1) => Some(Term::Comp(Box::new(a1), Box::new(b.copy()))),
                None => match step(b) {
                    Some(b1) => Some(Term::Comp(Box::new(a.copy()), Box::new(b1))),
                    None => None,
                },
            }
        },
        Term::Tensor(a, b) => match step(a) {
            Some(a1) => Some(Term::Tensor(Box::new(a1), Box::new(b.copy()))),
            None => match step(b) {
                Some(b1) => Some(Term::Tensor(Box::new(a.copy()), Box::new(b1))),
                None => None,
            },
        },
        _ => None,
    }
}

/// A step allocates nothing: the number of nodes stays the same.
pub proof fn law_step_keeps_node_count(t: TermView)
    requires
        step_of(t) is Some,
    ensures
        nodes(step_of(t)->0) == nodes(t),
    decreases t,
{
    reveal_with_fuel(nodes, 4);
    match t {
        TermView::Comp(a, b) => {
            match (*a, *b) {
                (TermView::Comp(f, g), _) => {},
                (TermView::Tensor(f, g), TermView::Tensor(x, y)) => {},
                _ => {
                    if step_of(*a) is Some {
                        law_step_keeps_node_count(*a);
                    } else {
                        law_step_keeps_node_count(*b);
                    }
                },
            }
        },
        TermView::Tensor(a, b) => {
            if step_of(*a) is Some {
                law_step_keeps_node_count(*a);
            } else {
                law_step_keeps_node_count(*b);
            }
        },
        _ => {},
    }
}

/// Two lists in either order, with others around them, hold the same.
proof fn lemma_middle_swap(
    a: Seq<Seq<char>>,
    b: Seq<Seq<char>>,
    c: Seq<Seq<char>>,
    d: Seq<Seq<char>>,
)
    ensures
        ((a + b) + (c + d)).to_multiset() == ((a + c) + (b + d)).to_multiset(),
{
    vstd::seq_lib::lemma_multiset_commutative(a, b);
    vstd::seq_lib::lemma_multiset_commutative(c, d);
    vstd::seq_lib::lemma_multiset_commutative(a, c);
    vstd::seq_lib::lemma_multiset_commutative(b, d);
    vstd::seq_lib::lemma_multiset_commutative(a + b, c + d);
    vstd::seq_lib::lemma_multiset_commutative(a + c, b + d);
    assert(((a + b) + (c + d)).to_multiset() =~= ((a + c) + (b + d)).to_multiset());
}

/// A step keeps the multiset of leaves.
pub proof fn law_step_keeps_leaves(t: TermView)
    requires
        step_of(t) is Some,
    ensures
        leaves(step_of(t)->0).to_multiset() == leaves(t).to_multiset(),
    decreases t,
{
    reveal_with_fuel(leaves, 3);
    match t {
        TermView::Comp(a, b) => {
            match (*a, *b) {
                (TermView::Comp(f, g), _) => {
                    assert(leaves(*f) + (leaves(*g) + leaves(*b)) =~= (leaves(*f) + leaves(*g))
                        + leaves(*b));
                },
                (TermView::Tensor(f, g), TermView::Tensor(x, y)) => {
                    lemma_middle_swap(leaves(*f), leaves(*g), leaves(*x), leaves(*y));
                },
                _ => {
                    if step_of(*a) is Some {
                        law_step_keeps_leaves(*a);
                        vstd::seq_lib::lemma_multiset_commutative(
                            leaves(step_of(*a)->0),
                            leaves(*b),
                        );
                    } else {
                        law_step_keeps_leaves(*b);
                        vstd::seq_lib::lemma_multiset_commutative(
                            leaves(*a),
                            leaves(step_of(*b)->0),
                        );
                    }
                    vstd::seq_lib::lemma_multiset_commutative(leaves(*a), leaves(*b));
                },
            }
        },
        TermView::Tensor(a, b) => {
            if step_of(*a) is Some {
                law_step_keeps_leaves(*a);
                vstd::seq_lib::lemma_multiset_commutative(leaves(step_of(*a)->0), leaves(*b));
            } else {
                law_step_keeps_leaves(*b);
                vstd::seq_lib::lemma_multiset_commutative(leaves(*a), leaves(step_of(*b)->0));
            }
            vstd::seq_lib::lemma_multiset_commutative(leaves(*a), leaves(*b));
        },
        _ => {},
    }
}

proof fn lemma_step_keeps_vars(t: TermView)
    requires
        step_of(t) is Some,
    ensures
        vars(step_of(t)->0).to_multiset() == vars(t).to_multiset(),
    decreases t,
{
    reveal_with_fuel(vars, 3);
    match t {
        TermView::Comp(a, b) => {
            match (*a, *b) {
                (TermView::Comp(f, g), _) => {
                    assert(vars(*f) + (vars(*g) + vars(*b)) =~= (vars(*f) + vars(*g)) + vars(*b));
                },
                (TermView::Tensor(f, g), TermView::Tensor(x, y)) => {
                    lemma_middle_swap(vars(*f), vars(*g), vars(*x), vars(*y));
                },
                _ => {
                    if step_of(*a) is Some {
                        lemma_step_keeps_vars(*a);
                        vstd::seq_lib::lemma_multiset_commutative(
                            vars(step_of(*a)->0),
                            vars(*b),
                        );
                    } else {
                        lemma_step_keeps_vars(*b);
                        vstd::seq_lib::lemma_multiset_commutative(
                            vars(*a),
                            vars(step_of(*b)->0),
                        );
                    }
                    vstd::seq_lib::lemma_multiset_commutative(vars(*a), vars(*b));
                },
            }
        },
        TermView::Tensor(a, b) => {
            if step_of(*a) is Some {
                lemma_step_keeps_vars(*a);
                vstd::seq_lib::lemma_multiset_commutative(vars(step_of(*a)->0), vars(*b));
            } else {
                lemma_step_keeps_vars(*b);
                vstd::seq_lib::lemma_multiset_commutative(vars(*a), vars(step_of(*b)->0));
            }
            vstd::seq_lib::lemma_multiset_commutative(vars(*a), vars(*b));
        },
        _ => {},
    }
}

proof fn lemma_step_keeps_synth(e: Map<Seq<char>, Ty>, t: TermView)
    requires
        step_of(t) is Some,
        synth(e, t) is Some,
    ensures
        synth(e, step_of(t)->0) == synth(e, t),
    decreases t,
{
    reveal_with_fuel(synth, 3);
    match t {
        TermView::Comp(a, b) => {
            match (*a, *b) {
                (TermView::Comp(f, g), _) => {},
                (TermView::Tensor(f, g), TermView::Tensor(x, y)) => {},
                _ => {
                    if step_of(*a) is Some {
                        lemma_step_keeps_synth(e, *a);
                    } else {
                        lemma_step_keeps_synth(e, *b);
                    }
                },
            }
        },
        TermView::Tensor(a, b) => {
            if step_of(*a) is Some {
                lemma_step_keeps_synth(e, *a);
            } else {
                lemma_step_keeps_synth(e, *b);
            }
        },
        _ => {},
    }
}

/// A step keeps the type: what is well-typed stays so, with the same type.
pub proof fn law_step_keeps_type(ctx: Seq<(Seq<char>, Ty)>, t: TermView)
    requires
        step_of(t) is Some,
        typed(ctx, t) is Some,
    ensures
        typed(ctx, step_of(t)->0) == typed(ctx, t),
{
    broadcast use group_to_multiset_ensures;

    let u = step_of(t)->0;
    lemma_step_keeps_vars(t);
    lemma_step_keeps_synth(env(ctx), t);
    vars(t).lemma_multiset_has_no_duplicates();
    vars(u).lemma_multiset_has_no_duplicates_conv();
    assert(vars(u).to_set() =~= vars(t).to_set()) by {
        assert forall|x: Seq<char>| vars(u).to_set().contains(x) <==> vars(t).to_set().contains(
            x,
        ) by {
            assert(vars(u).contains(x) <==> vars(u).to_multiset().count(x) > 0);
            assert(vars(t).contains(x) <==> vars(t).to_multiset().count(x) > 0);
        }
    }
}

// ---------------------------------------------------------------------
// Typing and reduction by example of their rules
// ---------------------------------------------------------------------

proof fn lemma_env_concat(c: Seq<(Seq<char>, Ty)>, d: Seq<(Seq<char>, Ty)>)
    ensures
        env(c + d) == env(c).union_prefer_right(env(d)),
        names(c + d) == names(c) + names(d),
    decreases d.len(),
{
    assert(names(c + d) =~= names(c) + names(d));
    if d.len() == 0 {
        assert(c + d =~= c);
        assert(env(c + d) =~= env(c).union_prefer_right(env(d)));
    } else {
        assert((c + d).drop_last() =~= c + d.drop_last());
        lemma_env_concat(c, d.drop_last());
        assert(env(c + d) =~= env(c).union_prefer_right(env(d)));
    }
}

/// A unit and an atom have their type in the empty context, and a variable
/// has its own in a context of that variable alone.
pub proof fn law_leaves_are_typed(x: Seq<char>, n: Seq<char>, a: Ty, b: Ty)
    ensures
        typed(Seq::empty(), TermView::Unit) == Some(
            Ty::Lin(Box::new(Ty::Unit), Box::new(Ty::Unit)),
        ),
        typed(Seq::empty(), TermView::Atom(n, a, b)) == Some(Ty::Lin(Box::new(a), Box::new(b))),
        typed(seq![(x, a)], TermView::Var(x)) == Some(a),
{
    let none = Seq::<(Seq<char>, Ty)>::empty();
    assert(names(none) =~= Seq::empty());
    let one = seq![(x, a)];
    assert(none.push((x, a)) =~= one);
    lemma_names_push(none, (x, a));
    assert(names(one) =~= seq![x]);
}

/// Two stages with contexts of their own have a composition exactly where
/// what the first gives is what the second takes, and stand side by side in
/// any case.
pub proof fn law_stages_are_put_together(
    c: Seq<(Seq<char>, Ty)>,
    d: Seq<(Seq<char>, Ty)>,
    f: TermView,
    g: TermView,
    from: Ty,
    via: Ty,
    other: Ty,
    to: Ty,
)
    requires
        typed(c, f) == Some(Ty::Lin(Box::new(from), Box::new(via))),
        typed(d, g) == Some(Ty::Lin(Box::new(other), Box::new(to))),
        forall|x: Seq<char>| !(#[trigger] names(c).contains(x) && names(d).contains(x)),
    ensures
        typed(c + d, TermView::Comp(Box::new(f), Box::new(g))) == if via == other {
            Some(Ty::Lin(Box::new(from), Box::new(to)))
        } else {
            None
        },
        typed(c + d, TermView::Tensor(Box::new(f), Box::new(g))) == Some(
            Ty::Lin(
                Box::new(Ty::Pair(Box::new(from), Box::new(other))),
                Box::new(Ty::Pair(Box::new(via), Box::new(to))),
            ),
        ),
{
    lemma_env_concat(c, d);
    lemma_env_dom(c);
    lemma_env_dom(d);
    let both = vars(f) + vars(g);
    assert forall|x: Seq<char>| #[trigger] vars(f).contains(x) <==> names(c).contains(x) by {
        assert(vars(f).to_set().contains(x) <==> names(c).to_set().contains(x));
    }
    assert forall|x: Seq<char>| #[trigger] vars(g).contains(x) <==> names(d).contains(x) by {
        assert(vars(g).to_set().contains(x) <==> names(d).to_set().contains(x));
    }
    lemma_synth_agree(env(c), env(c + d), f);
    lemma_synth_agree(env(d), env(c + d), g);
    lemma_nodup_concat(vars(f), vars(g));
    lemma_nodup_concat(names(c), names(d));
    assert(both.to_set() =~= names(c + d).to_set()) by {
        assert forall|x: Seq<char>| #[trigger] both.to_set().contains(x) <==> names(
            c + d,
        ).to_set().contains(x) by {
            lemma_contains_concat(vars(f), vars(g), x);
            lemma_contains_concat(names(c), names(d), x);
        }
    }
    assert(vars(TermView::Comp(Box::new(f), Box::new(g))) == both);
    assert(vars(TermView::Tensor(Box::new(f), Box::new(g))) == both);
}

/// Two neighbours of a context may change places.
pub proof fn law_contexts_have_no_order(
    c: Seq<(Seq<char>, Ty)>,
    p: (Seq<char>, Ty),
    q: (Seq<char>, Ty),
    d: Seq<(Seq<char>, Ty)>,
    t: TermView,
)
    ensures
        typed(c + seq![p, q] + d, t) == typed(c + seq![q, p] + d, t),
{
    let x = c + seq![p, q] + d;
    let y = c + seq![q, p] + d;
    let n = names(x);
    let m = names(y);
    let k = c.len() as int;
    assert(n.len() == m.len());
    assert forall|i: int| 0 <= i < n.len() && i != k && i != k + 1 implies n[i] == m[i] by {}
    assert(n[k] == p.0 && n[k + 1] == q.0 && m[k] == q.0 && m[k + 1] == p.0);
    assert(n =~= m.update(k, m[k + 1]).update(k + 1, m[k]));
    if n.no_duplicates() {
        assert forall|i: int, j: int| 0 <= i < m.len() && 0 <= j < m.len() && i != j implies m[i]
            != m[j] by {
            let a = if i == k { k + 1 } else if i == k + 1 { k } else { i };
            let b = if j == k { k + 1 } else if j == k + 1 { k } else { j };
            assert(m[i] == n[a] && m[j] == n[b] && a != b);
        }
    }
    if m.no_duplicates() {
        assert forall|i: int, j: int| 0 <= i < n.len() && 0 <= j < n.len() && i != j implies n[i]
            != n[j] by {
            let a = if i == k { k + 1 } else if i == k + 1 { k } else { i };
            let b = if j == k { k + 1 } else if j == k + 1 { k } else { j };
            assert(n[i] == m[a] && n[j] == m[b] && a != b);
        }
    }
    assert(n.to_set() =~= m.to_set()) by {
        assert forall|v: Seq<char>| #[trigger] n.to_set().contains(v) <==> m.to_set().contains(
            v,
        ) by {
            if n.contains(v) {
                let i = choose|i: int| 0 <= i < n.len() && n[i] == v;
                let a = if i == k { k + 1 } else if i == k + 1 { k } else { i };
                assert(m[a] == v);
            }
            if m.contains(v) {
                let i = choose|i: int| 0 <= i < m.len() && m[i] == v;
                let a = if i == k { k + 1 } else if i == k + 1 { k } else { i };
                assert(n[a] == v);
            }
        }
    }
    if n.no_duplicates() {
        assert(p.0 != q.0);
        lemma_env_concat(c + seq![p, q], d);
        lemma_env_concat(c + seq![q, p], d);
        lemma_env_concat(c, seq![p, q]);
        lemma_env_concat(c, seq![q, p]);
        assert(env(seq![p, q]) =~= env(seq![q, p])) by {
            let none = Seq::<(Seq<char>, Ty)>::empty();
            lemma_names_push(none, p);
            lemma_names_push(none.push(p), q);
            lemma_names_push(none, q);
            lemma_names_push(none.push(q), p);
            assert(none.push(p).push(q) =~= seq![p, q]);
            assert(none.push(q).push(p) =~= seq![q, p]);
        }
    }
}

/// The two rules of reduction, whatever their parts can do.
pub proof fn law_rules_of_reduction(
    f: Box<TermView>,
    g: Box<TermView>,
    x: Box<TermView>,
    y: Box<TermView>,
)
    ensures
        step_of(TermView::Comp(Box::new(TermView::Comp(f, g)), x)) == Some(
            TermView::Comp(f, Box::new(TermView::Comp(g, x))),
        ),
        step_of(
            TermView::Comp(Box::new(TermView::Tensor(f, g)), Box::new(TermView::Tensor(x, y))),
        ) == Some(
            TermView::Tensor(Box::new(TermView::Comp(f, x)), Box::new(TermView::Comp(g, y))),
        ),
{
}

/// Where neither rule applies to the whole, the left part steps if it can,
/// else the right one; a term of one node never steps.
pub proof fn law_parts_are_reduced(f: Box<TermView>, g: Box<TermView>, x: Seq<char>, a: Ty, b: Ty)
    ensures
        ({
            let s = step_of(TermView::Tensor(f, g));
            &&& step_of(*f) is Some ==> s == Some(TermView::Tensor(Box::new(step_of(*f)->0), g))
            &&& step_of(*f) is None && step_of(*g) is Some ==> s == Some(
                TermView::Tensor(f, Box::new(step_of(*g)->0)),
            )
            &&& step_of(*f) is None && step_of(*g) is None ==> s is None
        }),
        !(*f is Comp) && !(*f is Tensor && *g is Tensor) ==> {
            let s = step_of(TermView::Comp(f, g));
            &&& step_of(*f) is Some ==> s == Some(TermView::Comp(Box::new(step_of(*f)->0), g))
            &&& step_of(*f) is None && step_of(*g) is Some ==> s == Some(
                TermView::Comp(f, Box::new(step_of(*g)->0)),
            )
            &&& step_of(*f) is None && step_of(*g) is None ==> s is None
        },
        step_of(TermView::Unit) is None,
        step_of(TermView::Var(x)) is None,
        step_of(TermView::Atom(x, a, b)) is None,
{
}

} // verus!
