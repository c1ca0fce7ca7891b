//! The reader: a tokenizer that splits source text into parens, whitespace
//! runs and symbol runs, and a stack-machine parser that turns the token
//! stream into heap-resident values.

use vstd::prelude::*;
use vstd::string::StrSliceExecFns;

use crate::heap::{
    count_empty, first_empty, kids, lemma_count_empty_update, lemma_count_empty_upto_le,
    lemma_first_empty_spec, lemma_full_counts_zero, list_flag, object_at, put_ok, resolves, Gc,
    Node, Object, Pair,
};
use crate::show::{lemma_wf_ordered, nodes_ordered, slot_ordered};
use crate::v0::{Error, V0};

verus! {

/// One token of source text: a paren, a maximal run of whitespace (kept so
/// its extent is known, semantically insignificant), or a maximal run of
/// non-delimiter characters.
#[derive(Debug, PartialEq, Eq)]
pub enum Token {
    Lparen,
    Rparen,
    Space(Vec<char>),
    Symbol(Vec<char>),
}

/// The mathematical value of a token: its kind and characters.
pub enum TokenV {
    Lparen,
    Rparen,
    Space(Seq<char>),
    Symbol(Seq<char>),
}

impl View for Token {
    type V = TokenV;

    open spec fn view(&self) -> TokenV {
        match self {
            Token::Lparen => TokenV::Lparen,
            Token::Rparen => TokenV::Rparen,
            Token::Space(cs) => TokenV::Space(cs@),
            Token::Symbol(cs) => TokenV::Symbol(cs@),
        }
    }
}

/// The whitespace set: space, tab, carriage return, line feed.
pub open spec fn is_space_char(c: char) -> bool {
    c == ' ' || c == '\t' || c == '\r' || c == '\n'
}

/// The delimiters that end a symbol run: parens and whitespace.
pub open spec fn is_delimiter(c: char) -> bool {
    c == '(' || c == ')' || is_space_char(c)
}

/// The length of the maximal run starting at `i` of whitespace characters
/// (`space` true) or non-delimiter characters (`space` false).
pub open spec fn run_len(s: Seq<char>, i: int, space: bool) -> int
    decreases s.len() - i when 0 <= i <= s.len()
{
    if i >= s.len() {
        0
    } else if (if space {
        is_space_char(s[i])
    } else {
        !is_delimiter(s[i])
    }) {
        1 + run_len(s, i + 1, space)
    } else {
        0
    }
}

/// A run length is non-negative and stays inside the text.
pub proof fn lemma_run_len_bounds(s: Seq<char>, i: int, space: bool)
    requires
        0 <= i <= s.len(),
    ensures
        0 <= run_len(s, i, space) <= s.len() - i,
    decreases s.len() - i,
{
    if i < s.len() && (if space {
        is_space_char(s[i])
    } else {
        !is_delimiter(s[i])
    }) {
        lemma_run_len_bounds(s, i + 1, space);
    }
}

/// A run that starts on a matching character has length at least one.
pub proof fn lemma_run_len_pos(s: Seq<char>, i: int, space: bool)
    requires
        0 <= i < s.len(),
        if space {
            is_space_char(s[i])
        } else {
            !is_delimiter(s[i])
        },
    ensures
        1 <= run_len(s, i, space) <= s.len() - i,
{
    lemma_run_len_bounds(s, i + 1, space);
}

/// The token stream of the text from position `i` on: parens are single
/// tokens, whitespace and symbol runs are maximal.
pub open spec fn spec_tokenize_from(s: Seq<char>, i: int) -> Seq<TokenV>
    decreases s.len() - i when 0 <= i <= s.len()
{
    if i >= s.len() {
        Seq::empty()
    } else if s[i] == '(' {
        seq![TokenV::Lparen] + spec_tokenize_from(s, i + 1)
    } else if s[i] == ')' {
        seq![TokenV::Rparen] + spec_tokenize_from(s, i + 1)
    } else if is_space_char(s[i]) {
        let n = run_len(s, i, true);
        proof {
            lemma_run_len_pos(s, i, true);
        }
        seq![TokenV::Space(s.subrange(i, i + n))] + spec_tokenize_from(s, i + n)
    } else {
        let n = run_len(s, i, false);
        proof {
            lemma_run_len_pos(s, i, false);
        }
        seq![TokenV::Symbol(s.subrange(i, i + n))] + spec_tokenize_from(s, i + n)
    }
}

/// The token stream of a whole text.
pub open spec fn spec_tokenize(s: Seq<char>) -> Seq<TokenV> {
    spec_tokenize_from(s, 0)
}

/// The mathematical values of a token sequence.
pub open spec fn toks_view(ts: Seq<Token>) -> Seq<TokenV> {
    ts.map_values(|t: Token| t@)
}

proof fn lemma_toks_view_push(ts: Seq<Token>, t: Token)
    ensures
        toks_view(ts.push(t)) =~= toks_view(ts).push(t@),
{
}

/// Splits source text into its token stream, character by character, with
/// maximal munch for whitespace and symbol runs.
pub fn tokenize(src: &Vec<char>) -> (tokens: Vec<Token>)
    ensures
        toks_view(tokens@) == spec_tokenize(src@),
{
    let mut index: usize = 0;
    let mut tokens: Vec<Token> = Vec::new();
    while index < src.len()
        invariant
            index <= src@.len(),
            toks_view(tokens@) + spec_tokenize_from(src@, index as int) == spec_tokenize(src@),
        decreases src@.len() - index,
    {
        let ghost toks0 = tokens@;
        let rune = src[index];
        if rune == '(' {
            tokens.push(Token::Lparen);
            index = index + 1;
            proof {
                lemma_toks_view_push(toks0, Token::Lparen);
                assert(toks_view(tokens@) + spec_tokenize_from(src@, index as int) =~= toks_view(
                    toks0,
                ) + spec_tokenize_from(src@, index as int - 1));
            }
        } else if rune == ')' {
            tokens.push(Token::Rparen);
            index = index + 1;
            proof {
                lemma_toks_view_push(toks0, Token::Rparen);
                assert(toks_view(tokens@) + spec_tokenize_from(src@, index as int) =~= toks_view(
                    toks0,
                ) + spec_tokenize_from(src@, index as int - 1));
            }
        } else if rune == ' ' || rune == '\t' || rune == '\r' || rune == '\n' {
            let start = index;
            let mut buf: Vec<char> = Vec::new();
            while index < src.len() && (src[index] == ' ' || src[index] == '\t' || src[index]
                == '\r' || src[index] == '\n')
                invariant
                    start <= index <= src@.len(),
                    buf@ == src@.subrange(start as int, index as int),
                    run_len(src@, start as int, true) == (index - start) + run_len(
                        src@,
                        index as int,
                        true,
                    ),
                decreases src@.len() - index,
            {
                buf.push(src[index]);
                index = index + 1;
                proof {
                    assert(buf@ =~= src@.subrange(start as int, index as int));
                }
            }
            proof {
                assert(run_len(src@, index as int, true) == 0);
                assert(run_len(src@, start as int, true) == index - start);
            }
            tokens.push(Token::Space(buf));
            proof {
                lemma_toks_view_push(toks0, Token::Space(buf));
                assert(toks_view(tokens@) + spec_tokenize_from(src@, index as int) =~= toks_view(
                    toks0,
                ) + spec_tokenize_from(src@, start as int));
            }
        } else {
            let start = index;
            let mut buf: Vec<char> = Vec::new();
            while index < src.len() && !(src[index] == '(' || src[index] == ')' || src[index]
                == ' ' || src[index] == '\t' || src[index] == '\r' || src[index] == '\n')
                invariant
                    start <= index <= src@.len(),
                    buf@ == src@.subrange(start as int, index as int),
                    run_len(src@, start as int, false) == (index - start) + run_len(
                        src@,
                        index as int,
                        false,
                    ),
                decreases src@.len() - index,
            {
                buf.push(src[index]);
                index = index + 1;
                proof {
                    assert(buf@ =~= src@.subrange(start as int, index as int));
                }
            }
            proof {
                assert(run_len(src@, index as int, false) == 0);
                assert(run_len(src@, start as int, false) == index - start);
            }
            tokens.push(Token::Symbol(buf));
            proof {
                lemma_toks_view_push(toks0, Token::Symbol(buf));
                assert(toks_view(tokens@) + spec_tokenize_from(src@, index as int) =~= toks_view(
                    toks0,
                ) + spec_tokenize_from(src@, start as int));
            }
        }
    }
    proof {
        assert(spec_tokenize_from(src@, index as int) =~= Seq::<TokenV>::empty());
        assert(toks_view(tokens@) =~= toks_view(tokens@) + Seq::<TokenV>::empty());
    }
    tokens
}

/// The abstract S-expression tree a heap-resident value denotes.  `Opaque`
/// stands for a procedure or an unresolvable pointer, which the reader never
/// produces.
pub enum Sexpr {
    Unit,
    Bool(bool),
    Symbol(Seq<char>),
    Cons(Box<Sexpr>, Box<Sexpr>),
    Opaque,
}

/// The S-expression a pointer denotes in a stamp-ordered heap.
pub open spec fn sexpr_of(nodes: Seq<Node>, p: Gc) -> Sexpr
    decreases p.timestamp,
        when nodes_ordered(nodes)
{
    if !resolves(nodes, p) {
        Sexpr::Opaque
    } else {
        match object_at(nodes, p) {
            Object::Unit => Sexpr::Unit,
            Object::Bool(b) => Sexpr::Bool(b),
            Object::Symbol(s) => Sexpr::Symbol(s@),
            Object::Pair(pv) => {
                proof {
                    assert(slot_ordered(nodes, p.index as int));
                    assert(kids(object_at(nodes, p))[0] == pv.fst);
                    assert(kids(object_at(nodes, p))[1] == pv.snd);
                }
                Sexpr::Cons(
                    Box::new(sexpr_of(nodes, pv.fst)),
                    Box::new(sexpr_of(nodes, pv.snd)),
                )
            },
            Object::Proc(_) => Sexpr::Opaque,
        }
    }
}

/// The proper list holding the given elements in order: nested cons cells
/// ending in `Unit`.
pub open spec fn list_of(elems: Seq<Sexpr>) -> Sexpr
    decreases elems.len(),
{
    if elems.len() == 0 {
        Sexpr::Unit
    } else {
        Sexpr::Cons(Box::new(elems[0]), Box::new(list_of(elems.drop_first())))
    }
}

/// A symbol spelling that begins with the reserved `#` prefix.
pub open spec fn starts_hash(s: Seq<char>) -> bool {
    s.len() >= 1 && s[0] == '#'
}

/// The fixed literal table: `#` is unit, `#t` true, `#f` false; every other
/// `#`-prefixed spelling is unknown.
pub open spec fn lit_of(s: Seq<char>) -> Option<Sexpr> {
    if s == seq!['#'] {
        Option::Some(Sexpr::Unit)
    } else if s == seq!['#', 't'] {
        Option::Some(Sexpr::Bool(true))
    } else if s == seq!['#', 'f'] {
        Option::Some(Sexpr::Bool(false))
    } else {
        Option::None
    }
}

/// The outcome of a parser run: the top-level values produced (or nothing,
/// on a read error) and how many heap allocations the run makes before it
/// finishes or stops.
pub struct ParseRun {
    pub result: Option<Seq<Sexpr>>,
    pub allocs: nat,
}

/// The parser as a stack machine over the token stream: `stack` holds the
/// pending enclosing lists, `cur` the values of the innermost one.  An
/// open paren pushes, a close paren folds `cur` into one list value appended
/// to the enclosing pending list, whitespace is skipped, a symbol resolves
/// through the literal table or allocates a symbol.  At the end of the
/// tokens the innermost pending values are the result.
pub open spec fn run_parse(
    ts: Seq<TokenV>,
    i: int,
    stack: Seq<Seq<Sexpr>>,
    cur: Seq<Sexpr>,
    allocs: nat,
) -> ParseRun
    decreases ts.len() - i when 0 <= i <= ts.len()
{
    if i >= ts.len() {
        ParseRun { result: Option::Some(cur), allocs }
    } else {
        match ts[i] {
            TokenV::Lparen => run_parse(ts, i + 1, stack.push(cur), Seq::empty(), allocs),
            TokenV::Rparen => {
                if stack.len() == 0 {
                    ParseRun { result: Option::None, allocs }
                } else {
                    run_parse(
                        ts,
                        i + 1,
                        stack.drop_last(),
                        stack.last().push(list_of(cur)),
                        allocs + 1 + cur.len(),
                    )
                }
            },
            TokenV::Space(_) => run_parse(ts, i + 1, stack, cur, allocs),
            TokenV::Symbol(sym) => {
                if starts_hash(sym) {
                    match lit_of(sym) {
                        Option::Some(v) => run_parse(ts, i + 1, stack, cur.push(v), allocs + 1),
                        Option::None => ParseRun { result: Option::None, allocs },
                    }
                } else {
                    run_parse(ts, i + 1, stack, cur.push(Sexpr::Symbol(sym)), allocs + 1)
                }
            },
        }
    }
}

/// The parser run over a whole token stream, from the empty initial state.
pub open spec fn spec_parse(ts: Seq<TokenV>) -> ParseRun {
    run_parse(ts, 0, Seq::empty(), Seq::empty(), 0)
}

/// A run's allocation count only grows from its starting count.
pub proof fn lemma_run_parse_allocs(
    ts: Seq<TokenV>,
    i: int,
    stack: Seq<Seq<Sexpr>>,
    cur: Seq<Sexpr>,
    allocs: nat,
)
    requires
        0 <= i <= ts.len(),
    ensures
        run_parse(ts, i, stack, cur, allocs).allocs >= allocs,
    decreases ts.len() - i,
{
    if i < ts.len() {
        match ts[i] {
            TokenV::Lparen => {
                lemma_run_parse_allocs(ts, i + 1, stack.push(cur), Seq::empty(), allocs);
            },
            TokenV::Rparen => {
                if stack.len() > 0 {
                    lemma_run_parse_allocs(
                        ts,
                        i + 1,
                        stack.drop_last(),
                        stack.last().push(list_of(cur)),
                        allocs + 1 + cur.len(),
                    );
                }
            },
            TokenV::Space(_) => {
                lemma_run_parse_allocs(ts, i + 1, stack, cur, allocs);
            },
            TokenV::Symbol(sym) => {
                if starts_hash(sym) {
                    match lit_of(sym) {
                        Option::Some(v) => {
                            lemma_run_parse_allocs(ts, i + 1, stack, cur.push(v), allocs + 1);
                        },
                        Option::None => {},
                    }
                } else {
                    lemma_run_parse_allocs(
                        ts,
                        i + 1,
                        stack,
                        cur.push(Sexpr::Symbol(sym)),
                        allocs + 1,
                    );
                }
            },
        }
    }
}

/// The S-expressions a pointer sequence denotes.
pub open spec fn ptrs_abs(nodes: Seq<Node>, ps: Seq<Gc>) -> Seq<Sexpr> {
    ps.map_values(|p: Gc| sexpr_of(nodes, p))
}

/// Every pointer of the sequence resolves.
pub open spec fn all_resolve(nodes: Seq<Node>, ps: Seq<Gc>) -> bool {
    forall|j: int| 0 <= j < ps.len() ==> resolves(nodes, #[trigger] ps[j])
}

/// The pending lists a parser stack denotes.
pub open spec fn stack_abs(nodes: Seq<Node>, st: Seq<Vec<Gc>>) -> Seq<Seq<Sexpr>> {
    st.map_values(|v: Vec<Gc>| ptrs_abs(nodes, v@))
}

/// Every pointer of every pending list resolves.
pub open spec fn stack_resolve(nodes: Seq<Node>, st: Seq<Vec<Gc>>) -> bool {
    forall|k: int| 0 <= k < st.len() ==> all_resolve(nodes, #[trigger] st[k]@)
}

/// Filling one empty slot keeps every resolving pointer resolving, with the
/// same object.
pub proof fn lemma_put_extends(pre: Seq<Node>, post: Seq<Node>, j: int, o: Object, t: usize)
    requires
        0 <= j < pre.len(),
        pre[j] is Empty,
        post == pre.update(j, Node::Occupied(o, t)),
    ensures
        forall|q: Gc| #[trigger] resolves(pre, q) ==> resolves(post, q) && object_at(post, q)
            == object_at(pre, q),
{
    assert forall|q: Gc| #[trigger] resolves(pre, q) implies resolves(post, q) && object_at(
        post,
        q,
    ) == object_at(pre, q) by {
        assert(q.index != j);
    }
}

/// The S-expression a resolving pointer denotes is stable under heap growth:
/// filling empty slots changes no existing value.
pub proof fn lemma_sexpr_preserved(pre: Seq<Node>, post: Seq<Node>, p: Gc)
    requires
        nodes_ordered(pre),
        nodes_ordered(post),
        forall|q: Gc| #[trigger] resolves(pre, q) ==> resolves(post, q) && object_at(post, q)
            == object_at(pre, q),
        resolves(pre, p),
    ensures
        sexpr_of(post, p) == sexpr_of(pre, p),
    decreases p.timestamp,
{
    assert(resolves(post, p));
    match object_at(pre, p) {
        Object::Pair(pv) => {
            assert(slot_ordered(pre, p.index as int));
            assert(kids(object_at(pre, p))[0] == pv.fst);
            assert(kids(object_at(pre, p))[1] == pv.snd);
            assert(resolves(pre, pv.fst) && pv.fst.timestamp < p.timestamp);
            assert(resolves(pre, pv.snd) && pv.snd.timestamp < p.timestamp);
            lemma_sexpr_preserved(pre, post, pv.fst);
            lemma_sexpr_preserved(pre, post, pv.snd);
        },
        _ => {},
    }
}

/// The values of a resolving pointer sequence are stable under heap growth.
pub proof fn lemma_ptrs_abs_preserved(pre: Seq<Node>, post: Seq<Node>, ps: Seq<Gc>)
    requires
        nodes_ordered(pre),
        nodes_ordered(post),
        forall|q: Gc| #[trigger] resolves(pre, q) ==> resolves(post, q) && object_at(post, q)
            == object_at(pre, q),
        all_resolve(pre, ps),
    ensures
        ptrs_abs(post, ps) == ptrs_abs(pre, ps),
        all_resolve(post, ps),
{
    assert forall|j: int| 0 <= j < ps.len() implies resolves(post, #[trigger] ps[j]) by {
        assert(resolves(pre, ps[j]));
    }
    assert forall|j: int|
        0 <= j < ps.len() implies #[trigger] ptrs_abs(post, ps)[j] == ptrs_abs(pre, ps)[j] by {
        lemma_sexpr_preserved(pre, post, ps[j]);
    }
    assert(ptrs_abs(post, ps) =~= ptrs_abs(pre, ps));
}

/// The pending lists of a parser stack are stable under heap growth.
pub proof fn lemma_stack_abs_preserved(pre: Seq<Node>, post: Seq<Node>, st: Seq<Vec<Gc>>)
    requires
        nodes_ordered(pre),
        nodes_ordered(post),
        forall|q: Gc| #[trigger] resolves(pre, q) ==> resolves(post, q) && object_at(post, q)
            == object_at(pre, q),
        stack_resolve(pre, st),
    ensures
        stack_abs(post, st) == stack_abs(pre, st),
        stack_resolve(post, st),
{
    assert forall|k: int| 0 <= k < st.len() implies all_resolve(post, #[trigger] st[k]@) by {
        assert(all_resolve(pre, st[k]@));
        lemma_ptrs_abs_preserved(pre, post, st[k]@);
    }
    assert forall|k: int|
        0 <= k < st.len() implies #[trigger] stack_abs(post, st)[k] == stack_abs(pre, st)[k] by {
        assert(all_resolve(pre, st[k]@));
        lemma_ptrs_abs_preserved(pre, post, st[k]@);
    }
    assert(stack_abs(post, st) =~= stack_abs(pre, st));
}

proof fn lemma_ptrs_abs_push(nodes: Seq<Node>, ps: Seq<Gc>, p: Gc)
    ensures
        ptrs_abs(nodes, ps.push(p)) =~= ptrs_abs(nodes, ps).push(sexpr_of(nodes, p)),
{
}

proof fn lemma_stack_abs_push(nodes: Seq<Node>, st: Seq<Vec<Gc>>, v: Vec<Gc>)
    ensures
        stack_abs(nodes, st.push(v)) =~= stack_abs(nodes, st).push(ptrs_abs(nodes, v@)),
{
}

proof fn lemma_stack_abs_drop(nodes: Seq<Node>, st: Seq<Vec<Gc>>)
    requires
        st.len() > 0,
    ensures
        stack_abs(nodes, st.drop_last()) =~= stack_abs(nodes, st).drop_last(),
        stack_abs(nodes, st).last() == ptrs_abs(nodes, st.last()@),
{
}

/// Appends one character to a string buffer.  Relies on `String::push`: the
/// buffer's characters gain exactly that character at the end.
#[verifier::external_body]
fn push_char(buf: &mut String, c: char)
    ensures
        final(buf)@ == old(buf)@.push(c),
{
    buf.push(c);
}

/// Copies a character run into an owned string.
fn chars_to_string(body: &Vec<char>) -> (name: String)
    ensures
        name@ == body@,
{
    let mut name = String::new();
    let mut ci: usize = 0;
    while ci < body.len()
        invariant
            ci <= body@.len(),
            name@ == body@.take(ci as int),
        decreases body@.len() - ci,
    {
        push_char(&mut name, body[ci]);
        ci = ci + 1;
        proof {
            assert(name@ =~= body@.take(ci as int));
        }
    }
    proof {
        assert(body@.take(body@.len() as int) =~= body@);
    }
    name
}

/// The facts one successful allocation gives the parser: the new pointer
/// resolves to the stored object, every older pointer and value is
/// untouched, one empty slot was consumed, and mark states are unchanged.
pub proof fn lemma_alloc_step(pre: crate::heap::Heap, post: crate::heap::Heap, p: Gc, o: Object)
    requires
        pre.wf(),
        post.wf(),
        put_ok(pre, post, p, o),
    ensures
        nodes_ordered(pre.nodes@),
        nodes_ordered(post.nodes@),
        forall|q: Gc| #[trigger] resolves(pre.nodes@, q) ==> resolves(post.nodes@, q) && object_at(
            post.nodes@,
            q,
        ) == object_at(pre.nodes@, q),
        resolves(post.nodes@, p),
        object_at(post.nodes@, p) == o,
        count_empty(pre.nodes@) >= 1,
        count_empty(post.nodes@) == count_empty(pre.nodes@) - 1,
        post.nodes@.len() == pre.nodes@.len(),
        forall|i: int|
            0 <= i < post.nodes@.len() ==> ((#[trigger] post.nodes@[i] is Marked) == (pre.nodes@[i]
                is Marked)),
{
    lemma_wf_ordered(pre.nodes@, pre.time);
    lemma_wf_ordered(post.nodes@, post.time);
    lemma_first_empty_spec(pre.nodes@);
    let j = first_empty(pre.nodes@);
    lemma_put_extends(pre.nodes@, post.nodes@, j, o, pre.time);
    lemma_count_empty_update(
        pre.nodes@,
        j,
        Node::Occupied(o, pre.time),
        pre.nodes@.len() as int,
    );
    assert(post.nodes@[j] == Node::Occupied(o, pre.time));
}

/// Runs tokenizer output through the parser stack machine, allocating every
/// value into the dialect's heap.  Succeeds exactly when the token stream is
/// well formed and the free slots cover its allocations, returning the
/// top-level values in source order; a malformed stream gives `Error::Read`,
/// a heap too small for the run gives `Error::Space`.  Values already
/// allocated stay valid either way.
#[verifier::rlimit(100)]
pub fn parse(src: &Vec<Token>, lisp: &mut V0) -> (r: Result<Vec<Gc>, Error>)
    requires
        old(lisp).wf(),
        old(lisp).heap.time + old(lisp).heap.nodes@.len() < usize::MAX,
    ensures
        final(lisp).wf(),
        final(lisp).heap.nodes@.len() == old(lisp).heap.nodes@.len(),
        forall|q: Gc| #[trigger] resolves(old(lisp).heap.nodes@, q) ==> resolves(
            final(lisp).heap.nodes@,
            q,
        ) && object_at(final(lisp).heap.nodes@, q) == object_at(old(lisp).heap.nodes@, q),
        forall|i: int|
            0 <= i < old(lisp).heap.nodes@.len() ==> ((#[trigger] final(lisp).heap.nodes@[i]
                is Marked) == (old(lisp).heap.nodes@[i] is Marked)),
        ({
            let pr = spec_parse(toks_view(src@));
            let have = count_empty(old(lisp).heap.nodes@);
            match r {
                Ok(ps) => {
                    &&& pr.result is Some
                    &&& pr.allocs <= have
                    &&& ps@.len() == pr.result->Some_0.len()
                    &&& forall|j: int|
                        0 <= j < ps@.len() ==> resolves(final(lisp).heap.nodes@, #[trigger] ps@[j])
                            && sexpr_of(final(lisp).heap.nodes@, ps@[j])
                            == pr.result->Some_0[j]
                },
                Err(e) => match e {
                    Error::Read => pr.result is None && pr.allocs <= have,
                    Error::Space => have < pr.allocs,
                    _ => false,
                },
            }
        }),
{
    let ghost ts = toks_view(src@);
    let ghost full = spec_parse(ts);
    let ghost orig = old(lisp).heap.nodes@;
    let ghost e0 = count_empty(orig);
    proof {
        lemma_count_empty_upto_le(orig, orig.len() as int);
    }
    let mut index: usize = 0;
    let mut pointers: Vec<Gc> = Vec::new();
    let mut stack: Vec<Vec<Gc>> = Vec::new();
    proof {
        assert(stack_abs(lisp.heap.nodes@, stack@) =~= Seq::<Seq<Sexpr>>::empty());
        assert(ptrs_abs(lisp.heap.nodes@, pointers@) =~= Seq::<Sexpr>::empty());
    }
    while index < src.len()
        invariant
            ts == toks_view(src@),
            ts.len() == src@.len(),
            full == spec_parse(ts),
            orig == old(lisp).heap.nodes@,
            e0 == count_empty(orig),
            e0 <= orig.len(),
            old(lisp).heap.time + old(lisp).heap.nodes@.len() < usize::MAX,
            index <= src@.len(),
            lisp.wf(),
            lisp.heap.nodes@.len() == orig.len(),
            count_empty(lisp.heap.nodes@) <= e0,
            lisp.heap.time == old(lisp).heap.time + e0 - count_empty(lisp.heap.nodes@),
            forall|q: Gc| #[trigger] resolves(orig, q) ==> resolves(lisp.heap.nodes@, q)
                && object_at(lisp.heap.nodes@, q) == object_at(orig, q),
            forall|i: int|
                0 <= i < orig.len() ==> ((#[trigger] lisp.heap.nodes@[i] is Marked) == (orig[i]
                    is Marked)),
            all_resolve(lisp.heap.nodes@, pointers@),
            stack_resolve(lisp.heap.nodes@, stack@),
            run_parse(
                ts,
                index as int,
                stack_abs(lisp.heap.nodes@, stack@),
                ptrs_abs(lisp.heap.nodes@, pointers@),
                (e0 - count_empty(lisp.heap.nodes@)) as nat,
            ) == full,
        decreases src@.len() - index,
    {
        let ghost preh0 = lisp.heap;
        let ghost pre0 = lisp.heap.nodes@;
        let ghost st0 = stack@;
        let ghost ptrs0 = pointers@;
        let ghost spent0 = (e0 - count_empty(pre0)) as nat;
        let ghost cur_abs = ptrs_abs(pre0, ptrs0);
        proof {
            assert(ts[index as int] == src@[index as int]@);
        }
        let tok = &src[index];
        match tok {
            Token::Lparen => {
                stack.push(pointers);
                pointers = Vec::new();
                index = index + 1;
                proof {
                    lemma_stack_abs_push(pre0, st0, stack@.last());
                    assert(stack@ == st0.push(stack@.last()));
                    assert(stack@.last()@ == ptrs0);
                    assert(stack_abs(pre0, stack@) =~= stack_abs(pre0, st0).push(cur_abs));
                    assert(ptrs_abs(pre0, pointers@) =~= Seq::<Sexpr>::empty());
                    assert forall|k2: int|
                        0 <= k2 < stack@.len() implies all_resolve(
                        pre0,
                        #[trigger] stack@[k2]@,
                    ) by {
                        if k2 < st0.len() {
                            assert(stack@[k2] == st0[k2]);
                        }
                    }
                }
            },
            Token::Rparen => {
                match stack.pop() {
                    Some(prev) => {
                        proof {
                            lemma_stack_abs_drop(pre0, st0);
                            assert(stack_abs(pre0, st0).len() == st0.len());
                        }
                        let ghost st_tail0 = stack_abs(pre0, st0).drop_last();
                        let ghost prev_abs0 = stack_abs(pre0, st0).last();
                        let ghost target: nat = (spent0 + 1 + cur_abs.len()) as nat;
                        proof {
                            assert(prev == st0.last());
                            assert(prev_abs0 == ptrs_abs(pre0, st0.last()@));
                            assert(prev@ == st0.last()@);
                            assert(full == run_parse(
                                ts,
                                index as int + 1,
                                st_tail0,
                                prev_abs0.push(list_of(cur_abs)),
                                target,
                            ));
                            assert(all_resolve(pre0, prev@));
                        }
                        let u = match lisp.unit() {
                            Ok(p) => p,
                            Err(e) => {
                                proof {
                                    lemma_full_counts_zero(pre0);
                                    lemma_run_parse_allocs(
                                        ts,
                                        index as int + 1,
                                        st_tail0,
                                        prev_abs0.push(list_of(cur_abs)),
                                        target,
                                    );
                                }
                                return Err(e);
                            },
                        };
                        proof {
                            lemma_alloc_step(
                                preh0,
                                lisp.heap,
                                u,
                                Object::Unit,
                            );
                        }
                        let mut xs = u;
                        let mut k = pointers.len();
                        proof {
                            let post = lisp.heap.nodes@;
                            lemma_ptrs_abs_preserved(pre0, post, ptrs0);
                            lemma_ptrs_abs_preserved(pre0, post, prev@);
                            lemma_stack_abs_preserved(pre0, post, stack@);
                            assert(sexpr_of(post, u) == Sexpr::Unit);
                            assert(cur_abs.subrange(k as int, cur_abs.len() as int)
                                =~= Seq::<Sexpr>::empty());
                            assert(sexpr_of(post, xs) == list_of(
                                cur_abs.subrange(k as int, cur_abs.len() as int),
                            ));
                        }
                        while k > 0
                            invariant
                                ts == toks_view(src@),
                                ts.len() == src@.len(),
                                index < src@.len(),
                                full == spec_parse(ts),
                                orig == old(lisp).heap.nodes@,
                                e0 == count_empty(orig),
                                e0 <= orig.len(),
                                old(lisp).heap.time + old(lisp).heap.nodes@.len() < usize::MAX,
                                lisp.wf(),
                                lisp.heap.nodes@.len() == orig.len(),
                                count_empty(lisp.heap.nodes@) <= e0,
                                lisp.heap.time == old(lisp).heap.time + e0 - count_empty(
                                    lisp.heap.nodes@,
                                ),
                                forall|q: Gc| #[trigger] resolves(orig, q) ==> resolves(
                                    lisp.heap.nodes@,
                                    q,
                                ) && object_at(lisp.heap.nodes@, q) == object_at(orig, q),
                                forall|i: int|
                                    0 <= i < orig.len() ==> ((#[trigger] lisp.heap.nodes@[i]
                                        is Marked) == (orig[i] is Marked)),
                                k <= pointers@.len(),
                                pointers@ == ptrs0,
                                cur_abs == ptrs_abs(lisp.heap.nodes@, pointers@),
                                cur_abs.len() == ptrs0.len(),
                                all_resolve(lisp.heap.nodes@, pointers@),
                                all_resolve(lisp.heap.nodes@, prev@),
                                stack_resolve(lisp.heap.nodes@, stack@),
                                prev_abs0 == ptrs_abs(lisp.heap.nodes@, prev@),
                                st_tail0 == stack_abs(lisp.heap.nodes@, stack@),
                                resolves(lisp.heap.nodes@, xs),
                                sexpr_of(lisp.heap.nodes@, xs) == list_of(
                                    cur_abs.subrange(k as int, cur_abs.len() as int),
                                ),
                                (e0 - count_empty(lisp.heap.nodes@)) as nat == spent0 + 1 + (
                                cur_abs.len() - k),
                                full == run_parse(
                                    ts,
                                    index as int + 1,
                                    st_tail0,
                                    prev_abs0.push(list_of(cur_abs)),
                                    target,
                                ),
                                target == spent0 + 1 + cur_abs.len(),
                            decreases k,
                        {
                            k = k - 1;
                            let elem = pointers[k];
                            let ghost preh1 = lisp.heap;
                            let ghost pre1 = lisp.heap.nodes@;
                            let xs2 = match lisp.pair(elem, xs) {
                                Ok(p) => p,
                                Err(e) => {
                                    proof {
                                        assert(resolves(pre1, elem));
                                        assert(resolves(pre1, xs));
                                        lemma_full_counts_zero(pre1);
                                        lemma_run_parse_allocs(
                                            ts,
                                            index as int + 1,
                                            st_tail0,
                                            prev_abs0.push(list_of(cur_abs)),
                                            target,
                                        );
                                    }
                                    return Err(e);
                                },
                            };
                            proof {
                                let post = lisp.heap.nodes@;
                                let cell = Object::Pair(
                                    Pair { fst: elem, snd: xs, is_list: list_flag(pre1, xs) },
                                );
                                lemma_alloc_step(
                                    preh1,
                                    lisp.heap,
                                    xs2,
                                    cell,
                                );
                                lemma_ptrs_abs_preserved(pre1, post, pointers@);
                                lemma_ptrs_abs_preserved(pre1, post, prev@);
                                lemma_stack_abs_preserved(pre1, post, stack@);
                                lemma_sexpr_preserved(pre1, post, xs);
                                assert(kids(cell)[0] == elem);
                                assert(kids(cell)[1] == xs);
                                assert(sexpr_of(post, xs2) == Sexpr::Cons(
                                    Box::new(sexpr_of(post, elem)),
                                    Box::new(sexpr_of(post, xs)),
                                ));
                                assert(sexpr_of(post, elem) == ptrs_abs(post, pointers@)[k as int]);
                                assert(sexpr_of(post, elem) == cur_abs[k as int]);
                                let tail = cur_abs.subrange(k as int, cur_abs.len() as int);
                                assert(tail[0] == cur_abs[k as int]);
                                assert(tail.drop_first() =~= cur_abs.subrange(
                                    k as int + 1,
                                    cur_abs.len() as int,
                                ));
                                assert(list_of(tail) == Sexpr::Cons(
                                    Box::new(cur_abs[k as int]),
                                    Box::new(list_of(cur_abs.subrange(
                                        k as int + 1,
                                        cur_abs.len() as int,
                                    ))),
                                ));
                                assert(sexpr_of(post, xs2) == list_of(tail));
                            }
                            xs = xs2;
                        }
                        proof {
                            assert(cur_abs.subrange(0, cur_abs.len() as int) =~= cur_abs);
                            assert(sexpr_of(lisp.heap.nodes@, xs) == list_of(cur_abs));
                        }
                        let ghost prev_snapshot = prev@;
                        pointers = prev;
                        pointers.push(xs);
                        index = index + 1;
                        proof {
                            lemma_ptrs_abs_push(lisp.heap.nodes@, prev_snapshot, xs);
                            assert(ptrs_abs(lisp.heap.nodes@, pointers@) == prev_abs0.push(
                                list_of(cur_abs),
                            ));
                            assert forall|j2: int|
                                0 <= j2 < pointers@.len() implies resolves(
                                lisp.heap.nodes@,
                                #[trigger] pointers@[j2],
                            ) by {
                                if j2 < prev_snapshot.len() {
                                    assert(pointers@[j2] == prev_snapshot[j2]);
                                }
                            }
                        }
                    },
                    None => {
                        proof {
                            assert(st0.len() == 0);
                            assert(stack_abs(pre0, st0).len() == 0);
                            assert(full.result is None && full.allocs == spent0);
                        }
                        return Err(Error::Read);
                    },
                }
            },
            Token::Space(_) => {
                index = index + 1;
            },
            Token::Symbol(body) => {
                let pointer: Gc;
                if body.len() >= 1 && body[0] == '#' {
                    proof {
                        assert(starts_hash(body@));
                    }
                    if body.len() == 1 {
                        proof {
                            assert(body@ =~= seq!['#']);
                            assert(lit_of(body@) == Option::Some(Sexpr::Unit));
                        }
                        pointer = match lisp.unit() {
                            Ok(p) => p,
                            Err(e) => {
                                proof {
                                    lemma_full_counts_zero(pre0);
                                    lemma_run_parse_allocs(
                                        ts,
                                        index as int + 1,
                                        stack_abs(pre0, st0),
                                        cur_abs.push(Sexpr::Unit),
                                        spent0 + 1,
                                    );
                                }
                                return Err(e);
                            },
                        };
                        proof {
                            lemma_alloc_step(
                                preh0,
                                lisp.heap,
                                pointer,
                                Object::Unit,
                            );
                            assert(sexpr_of(lisp.heap.nodes@, pointer) == Sexpr::Unit);
                        }
                    } else if body.len() == 2 && body[1] == 't' {
                        proof {
                            assert(body@ =~= seq!['#', 't']);
                            assert(lit_of(body@) == Option::Some(Sexpr::Bool(true)));
                        }
                        pointer = match lisp.t() {
                            Ok(p) => p,
                            Err(e) => {
                                proof {
                                    lemma_full_counts_zero(pre0);
                                    lemma_run_parse_allocs(
                                        ts,
                                        index as int + 1,
                                        stack_abs(pre0, st0),
                                        cur_abs.push(Sexpr::Bool(true)),
                                        spent0 + 1,
                                    );
                                }
                                return Err(e);
                            },
                        };
                        proof {
                            lemma_alloc_step(
                                preh0,
                                lisp.heap,
                                pointer,
                                Object::Bool(true),
                            );
                            assert(sexpr_of(lisp.heap.nodes@, pointer) == Sexpr::Bool(true));
                        }
                    } else if body.len() == 2 && body[1] == 'f' {
                        proof {
                            assert(body@ =~= seq!['#', 'f']);
                            assert(lit_of(body@) == Option::Some(Sexpr::Bool(false)));
                        }
                        pointer = match lisp.f() {
                            Ok(p) => p,
                            Err(e) => {
                                proof {
                                    lemma_full_counts_zero(pre0);
                                    lemma_run_parse_allocs(
                                        ts,
                                        index as int + 1,
                                        stack_abs(pre0, st0),
                                        cur_abs.push(Sexpr::Bool(false)),
                                        spent0 + 1,
                                    );
                                }
                                return Err(e);
                            },
                        };
                        proof {
                            lemma_alloc_step(
                                preh0,
                                lisp.heap,
                                pointer,
                                Object::Bool(false),
                            );
                            assert(sexpr_of(lisp.heap.nodes@, pointer) == Sexpr::Bool(false));
                        }
                    } else {
                        proof {
                            assert(body@.len() != 1);
                            if body@ == seq!['#', 't'] {
                                assert(body@.len() == 2 && body@[1] == 't');
                            }
                            if body@ == seq!['#', 'f'] {
                                assert(body@.len() == 2 && body@[1] == 'f');
                            }
                            assert(lit_of(body@) is None);
                            assert(full.result is None && full.allocs == spent0);
                        }
                        return Err(Error::Read);
                    }
                } else {
                    proof {
                        assert(!starts_hash(body@));
                    }
                    let name = chars_to_string(body);
                    pointer = match lisp.symbol(name) {
                        Ok(p) => p,
                        Err(e) => {
                            proof {
                                lemma_full_counts_zero(pre0);
                                lemma_run_parse_allocs(
                                    ts,
                                    index as int + 1,
                                    stack_abs(pre0, st0),
                                    cur_abs.push(Sexpr::Symbol(body@)),
                                    spent0 + 1,
                                );
                            }
                            return Err(e);
                        },
                    };
                    proof {
                        let obj = object_at(lisp.heap.nodes@, pointer);
                        lemma_alloc_step(
                            preh0,
                            lisp.heap,
                            pointer,
                            obj,
                        );
                        assert(obj matches Object::Symbol(sv) && sv@ == body@);
                        assert(sexpr_of(lisp.heap.nodes@, pointer) == Sexpr::Symbol(body@));
                    }
                }
                proof {
                    let post = lisp.heap.nodes@;
                    lemma_ptrs_abs_preserved(pre0, post, ptrs0);
                    lemma_stack_abs_preserved(pre0, post, st0);
                    lemma_ptrs_abs_push(post, ptrs0, pointer);
                }
                pointers.push(pointer);
                index = index + 1;
            },
        }
    }
    proof {
        assert(full.result == Option::Some(ptrs_abs(lisp.heap.nodes@, pointers@)));
        assert(full.allocs == (e0 - count_empty(lisp.heap.nodes@)) as nat);
        assert forall|j: int|
            0 <= j < pointers@.len() implies resolves(lisp.heap.nodes@, #[trigger] pointers@[j])
                && sexpr_of(lisp.heap.nodes@, pointers@[j]) == full.result->Some_0[j] by {
            assert(ptrs_abs(lisp.heap.nodes@, pointers@)[j] == sexpr_of(
                lisp.heap.nodes@,
                pointers@[j],
            ));
        }
    }
    return Ok(pointers);
}

/// Copies a string's characters into a vector, in order.
fn chars_of_str(s: &str) -> (cs: Vec<char>)
    ensures
        cs@ == s@,
{
    let n = s.unicode_len();
    let mut cs: Vec<char> = Vec::new();
    let mut i: usize = 0;
    while i < n
        invariant
            i <= n,
            n == s@.len(),
            cs@ == s@.take(i as int),
        decreases n - i,
    {
        cs.push(s.get_char(i));
        i = i + 1;
        proof {
            assert(cs@ =~= s@.take(i as int));
        }
    }
    proof {
        assert(s@.take(n as int) =~= s@);
    }
    cs
}

impl V0 {
    /// Reads source text: tokenizes it and parses the token stream into
    /// heap-resident values, returned in left-to-right source order.
    /// Succeeds exactly when the text is well formed and the heap has room
    /// for every allocated value; malformed parenthesization or an unknown
    /// `#`-literal gives `Error::Read`, a full heap `Error::Space`.
    pub fn read(&mut self, src: &str) -> (r: Result<Vec<Gc>, Error>)
        requires
            old(self).wf(),
            old(self).heap.time + old(self).heap.nodes@.len() < usize::MAX,
        ensures
            final(self).wf(),
            final(self).heap.nodes@.len() == old(self).heap.nodes@.len(),
            forall|q: Gc| #[trigger] resolves(old(self).heap.nodes@, q) ==> resolves(
                final(self).heap.nodes@,
                q,
            ) && object_at(final(self).heap.nodes@, q) == object_at(old(self).heap.nodes@, q),
            forall|i: int|
                0 <= i < old(self).heap.nodes@.len() ==> ((#[trigger] final(self).heap.nodes@[i]
                    is Marked) == (old(self).heap.nodes@[i] is Marked)),
            ({
                let pr = spec_parse(spec_tokenize(src@));
                let have = count_empty(old(self).heap.nodes@);
                match r {
                    Ok(ps) => {
                        &&& pr.result is Some
                        &&& pr.allocs <= have
                        &&& ps@.len() == pr.result->Some_0.len()
                        &&& forall|j: int|
                            0 <= j < ps@.len() ==> resolves(
                                final(self).heap.nodes@,
                                #[trigger] ps@[j],
                            ) && sexpr_of(final(self).heap.nodes@, ps@[j])
                                == pr.result->Some_0[j]
                    },
                    Err(e) => match e {
                        Error::Read => pr.result is None && pr.allocs <= have,
                        Error::Space => have < pr.allocs,
                        _ => false,
                    },
                }
            }),
    {
        let runes = chars_of_str(src);
        let tokens = tokenize(&runes);
        parse(&tokens, self)
    }
}

} // verus!

