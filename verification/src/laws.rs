use vstd::prelude::*;
use crate::arg::Parameter;
use crate::clip::{Clip, InputView};
use crate::error::ErrorView;

verus! {

/// A result of taking parameter words, with its end position moved by `k`.
pub open spec fn shifted(r: Result<(Seq<Seq<char>>, int), ErrorView>, k: int) -> Result<
    (Seq<Seq<char>>, int),
    ErrorView,
> {
    match r {
        Ok((ws, q)) => Ok((ws, q + k)),
        Err(e) => Err(e),
    }
}

proof fn lemma_run_end_shift(c: Clip, p: Seq<Seq<char>>, t: Seq<Seq<char>>, pos: int)
    requires
        0 <= pos <= t.len(),
    ensures
        c.run_end(p + t, p.len() + pos) == p.len() + c.run_end(t, pos),
    decreases t.len() - pos,
{
    if pos < t.len() {
        assert((p + t)[p.len() + pos] == t[pos]);
        if !c.ends_run(t[pos]) {
            lemma_run_end_shift(c, p, t, pos + 1);
        }
    }
}

proof fn lemma_take_param_bounds(c: Clip, t: Seq<Seq<char>>, pos: int, par: Parameter)
    requires
        0 <= pos <= t.len(),
    ensures
        c.take_param(t, pos, par) matches Ok((_, q)) ==> pos <= q <= t.len(),
{
    if par.ninputs == -1 {
        c.lemma_run_end_bounds(t, pos);
    }
}

proof fn lemma_take_param_shift(c: Clip, p: Seq<Seq<char>>, t: Seq<Seq<char>>, pos: int, par: Parameter)
    requires
        0 <= pos <= t.len(),
    ensures
        c.take_param(p + t, p.len() + pos, par) == shifted(c.take_param(t, pos, par), p.len() as int),
{
    let k = p.len() as int;
    if par.ninputs == -1 {
        lemma_run_end_shift(c, p, t, pos);
        c.lemma_run_end_bounds(t, pos);
        let e = c.run_end(t, pos);
        assert((p + t).subrange(k + pos, k + e) =~= t.subrange(pos, e));
    } else if par.ninputs > 0 && pos + par.ninputs <= t.len() {
        assert((p + t).subrange(k + pos, k + pos + par.ninputs) =~= t.subrange(pos, pos + par.ninputs));
    }
}

proof fn lemma_take_params_shift(
    c: Clip,
    p: Seq<Seq<char>>,
    t: Seq<Seq<char>>,
    pos: int,
    params: Seq<Parameter>,
    i: int,
    acc: Seq<Seq<char>>,
)
    requires
        0 <= pos <= t.len(),
    ensures
        c.take_params(p + t, p.len() + pos, params, i, acc) == shifted(
            c.take_params(t, pos, params, i, acc),
            p.len() as int,
        ),
    decreases params.len() - i,
{
    if 0 <= i < params.len() {
        lemma_take_param_shift(c, p, t, pos, params[i]);
        lemma_take_param_bounds(c, t, pos, params[i]);
        match c.take_param(t, pos, params[i]) {
            Ok((ws, q)) => {
                lemma_take_params_shift(c, p, t, q, params, i + 1, acc + ws);
            },
            Err(_) => {},
        }
    }
}

proof fn lemma_parse_from_shift(c: Clip, p: Seq<Seq<char>>, t: Seq<Seq<char>>, pos: int, acc: Seq<InputView>)
    requires
        0 <= pos <= t.len(),
    ensures
        c.parse_from(p + t, p.len() + pos, acc) == c.parse_from(t, pos, acc),
    decreases t.len() - pos,
{
    if pos < t.len() {
        assert((p + t)[p.len() + pos] == t[pos]);
        let tok = c.resolve(t[pos]);
        if c.args@.contains_key(tok) {
            let a = c.args@[tok];
            lemma_take_params_shift(c, p, t, pos + 1, a.params@, 0, Seq::empty());
            c.lemma_take_params_bounds(t, pos + 1, a.params@, 0, Seq::empty());
            match c.take_params(t, pos + 1, a.params@, 0, Seq::empty()) {
                Ok((vs, q)) => {
                    lemma_parse_from_shift(c, p, t, q, acc.push((a.name@, vs)));
                },
                Err(_) => {},
            }
        } else if c.variadic is Some {
            lemma_parse_from_shift(c, p, t, pos + 1, acc.update(0, (acc[0].0, acc[0].1.push(tok))));
        }
    }
}

/// Whether the words `t2` may follow the words `t1` without changing how `t1`
/// reads: `t2` is empty or starts with an argument name or an alias.
pub open spec fn starts_fresh(c: Clip, t2: Seq<Seq<char>>) -> bool {
    t2.len() == 0 || c.ends_run(t2[0])
}

proof fn lemma_run_end_concat(c: Clip, t1: Seq<Seq<char>>, t2: Seq<Seq<char>>, pos: int)
    requires
        0 <= pos <= t1.len(),
        starts_fresh(c, t2),
    ensures
        c.run_end(t1 + t2, pos) == c.run_end(t1, pos),
    decreases t1.len() - pos,
{
    if pos < t1.len() {
        assert((t1 + t2)[pos] == t1[pos]);
        if !c.ends_run(t1[pos]) {
            lemma_run_end_concat(c, t1, t2, pos + 1);
        }
    } else if t2.len() > 0 {
        assert((t1 + t2)[pos] == t2[0]);
    }
}

proof fn lemma_take_params_concat(
    c: Clip,
    t1: Seq<Seq<char>>,
    t2: Seq<Seq<char>>,
    pos: int,
    params: Seq<Parameter>,
    i: int,
    acc: Seq<Seq<char>>,
)
    requires
        0 <= pos <= t1.len(),
        starts_fresh(c, t2),
        c.take_params(t1, pos, params, i, acc) is Ok,
    ensures
        c.take_params(t1 + t2, pos, params, i, acc) == c.take_params(t1, pos, params, i, acc),
    decreases params.len() - i,
{
    if 0 <= i < params.len() {
        let par = params[i];
        lemma_take_param_bounds(c, t1, pos, par);
        if par.ninputs == -1 {
            lemma_run_end_concat(c, t1, t2, pos);
            c.lemma_run_end_bounds(t1, pos);
            let e = c.run_end(t1, pos);
            assert((t1 + t2).subrange(pos, e) =~= t1.subrange(pos, e));
        } else if par.ninputs > 0 && pos + par.ninputs <= t1.len() {
            assert((t1 + t2).subrange(pos, pos + par.ninputs) =~= t1.subrange(pos, pos + par.ninputs));
        }
        match c.take_param(t1, pos, par) {
            Ok((ws, q)) => {
                lemma_take_params_concat(c, t1, t2, q, params, i + 1, acc + ws);
            },
            Err(_) => {},
        }
    }
}

proof fn lemma_parse_from_concat(
    c: Clip,
    t1: Seq<Seq<char>>,
    t2: Seq<Seq<char>>,
    pos: int,
    acc: Seq<InputView>,
)
    requires
        0 <= pos <= t1.len(),
        starts_fresh(c, t2),
        c.parse_from(t1, pos, acc) is Ok,
    ensures
        c.parse_from(t1 + t2, pos, acc) == c.parse_from(t1 + t2, t1.len() as int, c.parse_from(t1, pos, acc)->Ok_0),
    decreases t1.len() - pos,
{
    if pos < t1.len() {
        assert((t1 + t2)[pos] == t1[pos]);
        let tok = c.resolve(t1[pos]);
        if c.args@.contains_key(tok) {
            let a = c.args@[tok];
            c.lemma_take_params_bounds(t1, pos + 1, a.params@, 0, Seq::empty());
            lemma_take_params_concat(c, t1, t2, pos + 1, a.params@, 0, Seq::empty());
            match c.take_params(t1, pos + 1, a.params@, 0, Seq::empty()) {
                Ok((vs, q)) => {
                    lemma_parse_from_concat(c, t1, t2, q, acc.push((a.name@, vs)));
                },
                Err(_) => {},
            }
        } else if c.variadic is Some {
            lemma_parse_from_concat(c, t1, t2, pos + 1, acc.update(0, (acc[0].0, acc[0].1.push(tok))));
        }
    }
}

proof fn lemma_parse_from_acc(c: Clip, t: Seq<Seq<char>>, pos: int, a: Seq<InputView>, acc: Seq<InputView>)
    requires
        c.variadic is None,
        c.parse_from(t, pos, acc) is Ok,
    ensures
        c.parse_from(t, pos, a + acc) == Ok::<_, ErrorView>(a + c.parse_from(t, pos, acc)->Ok_0),
    decreases t.len() - pos,
{
    if 0 <= pos < t.len() {
        let tok = c.resolve(t[pos]);
        if c.args@.contains_key(tok) {
            let x = c.args@[tok];
            c.lemma_take_params_bounds(t, pos + 1, x.params@, 0, Seq::empty());
            match c.take_params(t, pos + 1, x.params@, 0, Seq::empty()) {
                Ok((vs, q)) => {
                    assert((a + acc).push((x.name@, vs)) =~= a + acc.push((x.name@, vs)));
                    lemma_parse_from_acc(c, t, q, a, acc.push((x.name@, vs)));
                },
                Err(_) => {},
            }
        }
    }
}

/// Reading is compositional: when the parser has no variadic argument and two
/// command lines each read without error, their concatenation reads as the
/// inputs of the first followed by those of the second.
pub proof fn lemma_parse_concat(c: Clip, t1: Seq<Seq<char>>, t2: Seq<Seq<char>>)
    requires
        c.variadic is None,
        c.parsed(t1) is Ok,
        c.parsed(t2) is Ok,
    ensures
        c.parsed(t1 + t2) == Ok::<_, ErrorView>(c.parsed(t1)->Ok_0 + c.parsed(t2)->Ok_0),
{
    let r1 = c.parsed(t1)->Ok_0;
    let r2 = c.parsed(t2)->Ok_0;
    let e = Seq::<InputView>::empty();
    assert(c.initial_inputs() =~= e);
    if t2.len() > 0 {
        assert(c.ends_run(t2[0]));
    }
    lemma_parse_from_concat(c, t1, t2, 0, e);
    lemma_parse_from_shift(c, t1, t2, 0, r1);
    assert(t1.len() + 0 == t1.len());
    lemma_parse_from_acc(c, t2, 0, r1, e);
    assert(r1 + e =~= r1);
}

/// Order of argument groups only orders the inputs: with no variadic argument,
/// if two command lines each read without error, reading one after the other
/// in either order gives their inputs in that order.
pub proof fn lemma_parse_swap(c: Clip, t1: Seq<Seq<char>>, t2: Seq<Seq<char>>)
    requires
        c.variadic is None,
        c.parsed(t1) is Ok,
        c.parsed(t2) is Ok,
    ensures
        c.parsed(t1 + t2) == Ok::<_, ErrorView>(c.parsed(t1)->Ok_0 + c.parsed(t2)->Ok_0),
        c.parsed(t2 + t1) == Ok::<_, ErrorView>(c.parsed(t2)->Ok_0 + c.parsed(t1)->Ok_0),
{
    lemma_parse_concat(c, t1, t2);
    lemma_parse_concat(c, t2, t1);
}

proof fn lemma_alias_step(c: Clip, a: Seq<char>, rest: Seq<Seq<char>>, acc: Seq<InputView>)
    requires
        c.aliases@.contains_key(a),
        !c.aliases@.contains_key(c.aliases@[a]@),
    ensures
        c.parse_from(seq![a] + rest, 0, acc) == c.parse_from(seq![c.aliases@[a]@] + rest, 0, acc),
{
    let n = c.aliases@[a]@;
    let ta = seq![a];
    let tn = seq![n];
    assert((ta + rest)[0] == a);
    assert((tn + rest)[0] == n);
    assert(c.resolve(a) == n);
    assert(c.resolve(n) == n);
    if c.args@.contains_key(n) {
        let x = c.args@[n];
        lemma_take_params_shift(c, ta, rest, 0, x.params@, 0, Seq::empty());
        lemma_take_params_shift(c, tn, rest, 0, x.params@, 0, Seq::empty());
        c.lemma_take_params_bounds(rest, 0, x.params@, 0, Seq::empty());
        match c.take_params(rest, 0, x.params@, 0, Seq::empty()) {
            Ok((vs, q)) => {
                lemma_parse_from_shift(c, ta, rest, q, acc.push((x.name@, vs)));
                lemma_parse_from_shift(c, tn, rest, q, acc.push((x.name@, vs)));
            },
            Err(_) => {},
        }
    } else if c.variadic is Some {
        let acc2 = acc.update(0, (acc[0].0, acc[0].1.push(n)));
        lemma_parse_from_shift(c, ta, rest, 0, acc2);
        lemma_parse_from_shift(c, tn, rest, 0, acc2);
    }
}

/// An alias stands for its argument: a command line that starts with an alias
/// reads the same as one that starts with the name the alias leads to (when
/// that name is not itself an alias).
pub proof fn lemma_alias_reads_as_name(c: Clip, a: Seq<char>, rest: Seq<Seq<char>>)
    requires
        c.aliases@.contains_key(a),
        !c.aliases@.contains_key(c.aliases@[a]@),
    ensures
        c.parsed(seq![a] + rest) == c.parsed(seq![c.aliases@[a]@] + rest),
{
    lemma_alias_step(c, a, rest, c.initial_inputs());
}

/// An alias stands for its argument after any complete group too: when the
/// words `xs` read without error, and the alias `a` leads to an argument name
/// that is not itself an alias, `xs ++ [a] ++ ys` reads the same as
/// `xs ++ [name] ++ ys`.
pub proof fn lemma_alias_after_group_reads_as_name(
    c: Clip,
    xs: Seq<Seq<char>>,
    a: Seq<char>,
    ys: Seq<Seq<char>>,
)
    requires
        c.aliases@.contains_key(a),
        c.args@.contains_key(c.aliases@[a]@),
        !c.aliases@.contains_key(c.aliases@[a]@),
        c.parsed(xs) is Ok,
    ensures
        c.parsed(xs + (seq![a] + ys)) == c.parsed(xs + (seq![c.aliases@[a]@] + ys)),
{
    let n = c.aliases@[a]@;
    let ta = seq![a] + ys;
    let tn = seq![n] + ys;
    let init = c.initial_inputs();
    let r1 = c.parse_from(xs, 0, init)->Ok_0;
    assert(ta[0] == a);
    assert(tn[0] == n);
    assert(starts_fresh(c, ta));
    assert(starts_fresh(c, tn));
    lemma_parse_from_concat(c, xs, ta, 0, init);
    lemma_parse_from_concat(c, xs, tn, 0, init);
    lemma_parse_from_shift(c, xs, ta, 0, r1);
    lemma_parse_from_shift(c, xs, tn, 0, r1);
    assert(xs.len() + 0 == xs.len());
    lemma_alias_step(c, a, ys, r1);
}

/// The words that inputs account for: one for each argument's own name and
/// one for each word it took.
pub open spec fn words_accounted(r: Seq<InputView>) -> int
    decreases r.len(),
{
    if r.len() == 0 {
        0
    } else {
        words_accounted(r.drop_last()) + 1 + r.last().1.len()
    }
}

proof fn lemma_words_accounted_update_first(r: Seq<InputView>, w: Seq<char>)
    requires
        r.len() > 0,
    ensures
        words_accounted(r.update(0, (r[0].0, r[0].1.push(w)))) == words_accounted(r) + 1,
    decreases r.len(),
{
    let u = r.update(0, (r[0].0, r[0].1.push(w)));
    if r.len() == 1 {
        assert(u.drop_last() =~= r.drop_last());
    } else {
        let d = r.drop_last();
        lemma_words_accounted_update_first(d, w);
        assert(u.drop_last() =~= d.update(0, (d[0].0, d[0].1.push(w))));
        assert(u.last() == r.last());
    }
}

proof fn lemma_take_params_count(
    c: Clip,
    t: Seq<Seq<char>>,
    pos: int,
    params: Seq<Parameter>,
    i: int,
    acc: Seq<Seq<char>>,
)
    requires
        0 <= pos <= t.len(),
    ensures
        c.take_params(t, pos, params, i, acc) matches Ok((vs, q)) ==> vs.len() == acc.len() + q - pos,
    decreases params.len() - i,
{
    if 0 <= i < params.len() {
        lemma_take_param_bounds(c, t, pos, params[i]);
        if params[i].ninputs == -1 {
            c.lemma_run_end_bounds(t, pos);
        }
        match c.take_param(t, pos, params[i]) {
            Ok((ws, q)) => {
                lemma_take_params_count(c, t, q, params, i + 1, acc + ws);
            },
            Err(_) => {},
        }
    }
}

proof fn lemma_parse_from_count(c: Clip, t: Seq<Seq<char>>, pos: int, acc: Seq<InputView>)
    requires
        0 <= pos <= t.len(),
        c.variadic is Some ==> acc.len() > 0,
        c.parse_from(t, pos, acc) is Ok,
    ensures
        words_accounted(c.parse_from(t, pos, acc)->Ok_0) == words_accounted(acc) + t.len() - pos,
    decreases t.len() - pos,
{
    if pos < t.len() {
        let tok = c.resolve(t[pos]);
        if c.args@.contains_key(tok) {
            let x = c.args@[tok];
            c.lemma_take_params_bounds(t, pos + 1, x.params@, 0, Seq::empty());
            lemma_take_params_count(c, t, pos + 1, x.params@, 0, Seq::empty());
            match c.take_params(t, pos + 1, x.params@, 0, Seq::empty()) {
                Ok((vs, q)) => {
                    let acc2 = acc.push((x.name@, vs));
                    assert(acc2.drop_last() =~= acc);
                    lemma_parse_from_count(c, t, q, acc2);
                },
                Err(_) => {},
            }
        } else if c.variadic is Some {
            lemma_words_accounted_update_first(acc, tok);
            lemma_parse_from_count(c, t, pos + 1, acc.update(0, (acc[0].0, acc[0].1.push(tok))));
        }
    }
}

/// Every word is read exactly once: when a command line reads without error,
/// the argument names and the words they took, together with the words given
/// to the variadic argument, are as many as the words of the command line.
pub proof fn lemma_every_word_read_once(c: Clip, t: Seq<Seq<char>>)
    requires
        c.parsed(t) is Ok,
    ensures
        words_accounted(c.parsed(t)->Ok_0) == t.len() + (if c.variadic is Some { 1int } else { 0int }),
{
    let init = c.initial_inputs();
    if c.variadic is Some {
        assert(init.drop_last() =~= Seq::<InputView>::empty());
        assert(words_accounted(Seq::<InputView>::empty()) == 0);
        assert(init.last().1.len() == 0);
        assert(words_accounted(init) == 1);
    } else {
        assert(words_accounted(init) == 0);
    }
    lemma_parse_from_count(c, t, 0, init);
}


/// The number of words that parameters `params[i..]` take when each takes a
/// fixed count.
pub open spec fn fixed_total(params: Seq<Parameter>, i: int) -> int
    decreases params.len() - i,
{
    if i < 0 || i >= params.len() {
        0
    } else {
        params[i].ninputs + fixed_total(params, i + 1)
    }
}

/// The words an argument's parameters take are the words right after it, in
/// command-line order, with none skipped, repeated or moved: whenever taking
/// succeeds from `pos` and ends at `q`, what was taken is `toks[pos..q]`.
pub proof fn lemma_taken_words_in_order(
    c: Clip,
    toks: Seq<Seq<char>>,
    pos: int,
    params: Seq<Parameter>,
    i: int,
    acc: Seq<Seq<char>>,
)
    requires
        0 <= pos <= toks.len(),
    ensures
        c.take_params(toks, pos, params, i, acc) matches Ok((vs, q)) ==> pos <= q <= toks.len() && vs
            == acc + toks.subrange(pos, q),
    decreases params.len() - i,
{
    if 0 <= i < params.len() {
        let par = params[i];
        if par.ninputs == -1 {
            c.lemma_run_end_bounds(toks, pos);
        } else if par.ninputs <= 0 {
            assert(toks.subrange(pos, pos) =~= Seq::<Seq<char>>::empty());
        }
        match c.take_param(toks, pos, par) {
            Ok((ws, q)) => {
                lemma_taken_words_in_order(c, toks, q, params, i + 1, acc + ws);
                match c.take_params(toks, q, params, i + 1, acc + ws) {
                    Ok((vs, r)) => {
                        assert(acc + ws + toks.subrange(q, r) =~= acc + toks.subrange(pos, r));
                    },
                    Err(_) => {},
                }
            },
            Err(_) => {},
        }
    }
}

/// Parameters with fixed positive counts take exactly as many words as their
/// counts add up to, whenever that many words are left.
pub proof fn lemma_fixed_counts_taken(
    c: Clip,
    toks: Seq<Seq<char>>,
    pos: int,
    params: Seq<Parameter>,
    i: int,
    acc: Seq<Seq<char>>,
)
    requires
        0 <= pos,
        0 <= i,
        forall|j: int| i <= j < params.len() ==> #[trigger] params[j].ninputs > 0,
        pos + fixed_total(params, i) <= toks.len(),
    ensures
        fixed_total(params, i) >= 0,
        c.take_params(toks, pos, params, i, acc) == Ok::<_, ErrorView>(
            (acc + toks.subrange(pos, pos + fixed_total(params, i)), pos + fixed_total(params, i)),
        ),
    decreases params.len() - i,
{
    if i >= params.len() {
        assert(toks.subrange(pos, pos) =~= Seq::<Seq<char>>::empty());
        assert(acc + toks.subrange(pos, pos) =~= acc);
    } else {
        let n = params[i].ninputs as int;
        lemma_fixed_counts_taken(c, toks, pos + n, params, i + 1, acc + toks.subrange(pos, pos + n));
        let t = fixed_total(params, i);
        assert(acc + toks.subrange(pos, pos + n) + toks.subrange(pos + n, pos + t) =~= acc + toks.subrange(
            pos,
            pos + t,
        ));
    }
}

/// A parameter that takes a variable number of words takes every word up to,
/// and not including, the first one that is an argument name or an alias, or
/// up to the end: a word that is neither is always taken.
pub proof fn lemma_variable_count_run(c: Clip, toks: Seq<Seq<char>>, pos: int, p: Parameter, acc: Seq<Seq<char>>)
    requires
        p.ninputs == -1,
        0 <= pos <= toks.len(),
    ensures
        c.take_params(toks, pos, seq![p], 0, acc) is Ok,
        c.take_params(toks, pos, seq![p], 0, acc) matches Ok((vs, q)) ==> {
            &&& pos <= q <= toks.len()
            &&& vs == acc + toks.subrange(pos, q)
            &&& forall|j: int|
                pos <= j < q ==> !c.aliases@.contains_key(#[trigger] toks[j]) && !c.args@.contains_key(
                    toks[j],
                )
            &&& q < toks.len() ==> c.aliases@.contains_key(toks[q]) || c.args@.contains_key(toks[q])
        },
{
    lemma_run_end_stops(c, toks, pos);
    c.lemma_run_end_bounds(toks, pos);
    let e = c.run_end(toks, pos);
    assert(c.take_params(toks, e, seq![p], 1, acc + toks.subrange(pos, e)) == Ok::<_, ErrorView>(
        (acc + toks.subrange(pos, e), e),
    ));
}

proof fn lemma_run_end_stops(c: Clip, toks: Seq<Seq<char>>, pos: int)
    requires
        0 <= pos <= toks.len(),
    ensures
        forall|j: int| pos <= j < c.run_end(toks, pos) ==> !c.ends_run(#[trigger] toks[j]),
        c.run_end(toks, pos) < toks.len() ==> c.ends_run(toks[c.run_end(toks, pos)]),
    decreases toks.len() - pos,
{
    if pos < toks.len() && !c.ends_run(toks[pos]) {
        lemma_run_end_stops(c, toks, pos + 1);
    }
}

/// The inputs a parser starts with: its variadic argument with no words.
pub open spec fn variadic_start(c: Clip) -> Seq<InputView> {
    match c.variadic {
        Some(v) => seq![(v@, Seq::<Seq<char>>::empty())],
        None => Seq::empty(),
    }
}

proof fn lemma_single_group(c: Clip, t: Seq<char>, ws: Seq<Seq<char>>)
    requires
        !c.aliases@.contains_key(t),
        c.args@.contains_key(t),
        c.take_params(seq![t] + ws, 1, c.args@[t].params@, 0, Seq::empty()) == Ok::<_, ErrorView>(
            (ws, ws.len() + 1int),
        ),
    ensures
        c.parsed(seq![t] + ws) == Ok::<_, ErrorView>(variadic_start(c) + seq![(c.args@[t].name@, ws)]),
{
    let toks = seq![t] + ws;
    assert(toks[0] == t);
    assert(c.initial_inputs() == variadic_start(c));
    assert(toks.len() == ws.len() + 1);
    assert(c.resolve(toks[0]) == t);
    let acc = variadic_start(c).push((c.args@[t].name@, ws));
    assert(c.parse_from(toks, toks.len() as int, acc) == Ok::<_, ErrorView>(acc));
    assert(c.parse_from(toks, 0, variadic_start(c)) == c.parse_from(toks, toks.len() as int, acc));
    assert(variadic_start(c).push((c.args@[t].name@, ws)) =~= variadic_start(c) + seq![(c.args@[t].name@, ws)]);
}

/// An argument whose parameters all take fixed positive counts, given by its
/// name and followed by exactly that many words, reads as that argument with
/// those words, in order.
pub proof fn lemma_fixed_argument_reads_its_words(c: Clip, t: Seq<char>, ws: Seq<Seq<char>>)
    requires
        !c.aliases@.contains_key(t),
        c.args@.contains_key(t),
        forall|j: int| 0 <= j < c.args@[t].params@.len() ==> #[trigger] c.args@[t].params@[j].ninputs > 0,
        ws.len() == fixed_total(c.args@[t].params@, 0),
    ensures
        c.parsed(seq![t] + ws) == Ok::<_, ErrorView>(variadic_start(c) + seq![(c.args@[t].name@, ws)]),
{
    let toks = seq![t] + ws;
    lemma_fixed_counts_taken(c, toks, 1, c.args@[t].params@, 0, Seq::empty());
    assert(Seq::<Seq<char>>::empty() + toks.subrange(1, 1 + ws.len() as int) =~= ws);
    lemma_single_group(c, t, ws);
}

/// An argument with one parameter that takes a variable number of words, given
/// by its name and followed by words none of which is an argument name or an
/// alias, reads as that argument with all those words, in order.
pub proof fn lemma_variable_argument_reads_its_words(c: Clip, t: Seq<char>, ws: Seq<Seq<char>>)
    requires
        !c.aliases@.contains_key(t),
        c.args@.contains_key(t),
        c.args@[t].params@.len() == 1,
        c.args@[t].params@[0].ninputs == -1,
        forall|j: int|
            0 <= j < ws.len() ==> !c.aliases@.contains_key(#[trigger] ws[j]) && !c.args@.contains_key(ws[j]),
    ensures
        c.parsed(seq![t] + ws) == Ok::<_, ErrorView>(variadic_start(c) + seq![(c.args@[t].name@, ws)]),
{
    let toks = seq![t] + ws;
    let p = c.args@[t].params@[0];
    assert(c.args@[t].params@ =~= seq![p]);
    lemma_variable_count_run(c, toks, 1, p, Seq::empty());
    let q = c.take_params(toks, 1, seq![p], 0, Seq::empty())->Ok_0.1;
    if q < toks.len() {
        assert(toks[q] == ws[q - 1]);
    }
    assert(Seq::<Seq<char>>::empty() + toks.subrange(1, toks.len() as int) =~= ws);
    lemma_single_group(c, t, ws);
}

} // verus!
