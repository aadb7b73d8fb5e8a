use vstd::prelude::*;
use crate::arg::{aliases_to, Argument, Mode, Parameter};
use crate::error::{Error, ErrorView};
use crate::text::{split_words, views_of, words};
use crate::table::StrMap;

verus! {

/// What was given for one argument: its name and the words it took.
#[derive(Debug, Clone)]
pub struct Input<'a> {
    pub name: &'static str,
    pub values: Vec<&'a str>,
}

/// A command-line parser: the arguments it knows, by name, and their aliases.
#[derive(Debug)]
pub struct Clip {
    pub program_name: &'static str,
    pub positional: Vec<&'static str>,
    pub variadic: Option<&'static str>,
    pub aliases: StrMap<&'static str>,
    pub args: StrMap<Argument>,
}

impl Clip {
    /// A parser for the program `program_name` that knows no arguments yet.
    pub fn new(program_name: &'static str) -> (c: Self)
        ensures
            c.program_name == program_name,
            c.positional@.len() == 0,
            c.variadic.is_none(),
            c.aliases@ == Map::<Seq<char>, &'static str>::empty(),
            c.args@ == Map::<Seq<char>, Argument>::empty(),
    {
        Self {
            program_name,
            positional: Vec::new(),
            variadic: None,
            aliases: StrMap::new(),
            args: StrMap::new(),
        }
    }
}


/// What one argument was given: its name and the words it took.
pub type InputView = (Seq<char>, Seq<Seq<char>>);

pub open spec fn input_view(i: Input) -> InputView {
    (i.name@, views_of(i.values@))
}

pub open spec fn inputs_view(v: Seq<Input>) -> Seq<InputView> {
    v.map_values(|i: Input| input_view(i))
}

pub open spec fn parse_result_view(r: Result<Vec<Input>, Error>) -> Result<Seq<InputView>, ErrorView> {
    match r {
        Ok(v) => Ok(inputs_view(v@)),
        Err(e) => Err(e@),
    }
}

impl Clip {
    /// The name a word stands for: the argument an alias leads to, or the word
    /// itself.
    pub open spec fn resolve(self, tok: Seq<char>) -> Seq<char> {
        if self.aliases@.contains_key(tok) {
            self.aliases@[tok]@
        } else {
            tok
        }
    }

    /// Whether a word is an argument name or an alias; such a word ends the
    /// words taken by a parameter with `ninputs == -1`.
    pub open spec fn ends_run(self, tok: Seq<char>) -> bool {
        self.aliases@.contains_key(tok) || self.args@.contains_key(tok)
    }

    /// The position of the first word at or after `pos` that ends a run.
    pub open spec fn run_end(self, toks: Seq<Seq<char>>, pos: int) -> int
        decreases toks.len() - pos,
    {
        if pos >= toks.len() || self.ends_run(toks[pos]) {
            pos
        } else {
            self.run_end(toks, pos + 1)
        }
    }

    /// The words that parameter `p` takes from position `pos` on, and the
    /// position after them.
    pub open spec fn take_param(self, toks: Seq<Seq<char>>, pos: int, p: Parameter) -> Result<
        (Seq<Seq<char>>, int),
        ErrorView,
    > {
        if p.ninputs == -1 {
            let e = self.run_end(toks, pos);
            Ok((toks.subrange(pos, e), e))
        } else if p.ninputs <= 0 {
            Ok((Seq::empty(), pos))
        } else if pos + p.ninputs <= toks.len() {
            Ok((toks.subrange(pos, pos + p.ninputs), pos + p.ninputs))
        } else {
            Err(ErrorView::ExpectedParameter(p.name@))
        }
    }

    /// The words that parameters `params[i..]` take, one after the other,
    /// from position `pos` on, after the words `acc` already taken.
    pub open spec fn take_params(
        self,
        toks: Seq<Seq<char>>,
        pos: int,
        params: Seq<Parameter>,
        i: int,
        acc: Seq<Seq<char>>,
    ) -> Result<(Seq<Seq<char>>, int), ErrorView>
        decreases params.len() - i,
    {
        if i < 0 || i >= params.len() {
            Ok((acc, pos))
        } else {
            match self.take_param(toks, pos, params[i]) {
                Ok((ws, q)) => self.take_params(toks, q, params, i + 1, acc + ws),
                Err(e) => Err(e),
            }
        }
    }

    /// The inputs read from the words at `pos` and after, following the
    /// inputs `acc` already read.
    pub open spec fn parse_from(self, toks: Seq<Seq<char>>, pos: int, acc: Seq<InputView>) -> Result<
        Seq<InputView>,
        ErrorView,
    >
        decreases toks.len() - pos,
    {
        if pos < 0 || pos >= toks.len() {
            Ok(acc)
        } else {
            let t = self.resolve(toks[pos]);
            if self.args@.contains_key(t) {
                let a = self.args@[t];
                match self.take_params(toks, pos + 1, a.params@, 0, Seq::empty()) {
                    Ok((vs, q)) => {
                        proof {
                            self.lemma_take_params_bounds(toks, pos + 1, a.params@, 0, Seq::empty());
                        }
                        self.parse_from(toks, q, acc.push((a.name@, vs)))
                    },
                    Err(e) => Err(e),
                }
            } else if self.variadic is Some {
                self.parse_from(toks, pos + 1, acc.update(0, (acc[0].0, acc[0].1.push(t))))
            } else {
                Err(ErrorView::UnknownArgument(t))
            }
        }
    }

    /// What reading starts from: the variadic argument, if there is one,
    /// with no words yet.
    pub open spec fn initial_inputs(self) -> Seq<InputView> {
        match self.variadic {
            Some(v) => seq![(v@, Seq::<Seq<char>>::empty())],
            None => Seq::empty(),
        }
    }

    /// The variadic input, when there is one, with the words `extra` given to it.
    pub open spec fn with_extra(self, extra: Seq<Seq<char>>) -> Seq<InputView> {
        match self.variadic {
            Some(v) => seq![(v@, extra)],
            None => Seq::empty(),
        }
    }

    /// The inputs read from the words `toks`, or the error that stops the
    /// reading.
    pub open spec fn parsed(self, toks: Seq<Seq<char>>) -> Result<Seq<InputView>, ErrorView> {
        self.parse_from(toks, 0, self.initial_inputs())
    }

    pub proof fn lemma_run_end_bounds(self, toks: Seq<Seq<char>>, pos: int)
        requires
            0 <= pos <= toks.len(),
        ensures
            pos <= self.run_end(toks, pos) <= toks.len(),
        decreases toks.len() - pos,
    {
        if pos < toks.len() && !self.ends_run(toks[pos]) {
            self.lemma_run_end_bounds(toks, pos + 1);
        }
    }

    pub proof fn lemma_take_params_bounds(
        self,
        toks: Seq<Seq<char>>,
        pos: int,
        params: Seq<Parameter>,
        i: int,
        acc: Seq<Seq<char>>,
    )
        requires
            0 <= pos <= toks.len(),
        ensures
            self.take_params(toks, pos, params, i, acc) matches Ok((_, q)) ==> pos <= q <= toks.len(),
        decreases params.len() - i,
    {
        if 0 <= i < params.len() {
            if params[i].ninputs == -1 {
                self.lemma_run_end_bounds(toks, pos);
            }
            match self.take_param(toks, pos, params[i]) {
                Ok((ws, q)) => {
                    self.lemma_take_params_bounds(toks, q, params, i + 1, acc + ws);
                },
                Err(e) => {},
            }
        }
    }
}


impl Clip {
    /// Adds `arg` to this parser (see `Argument::add`).
    pub fn add(&mut self, arg: Argument)
        requires
            arg.fits(old(self)),
        ensures
            final(self).program_name == old(self).program_name,
            final(self).aliases@ == aliases_to(old(self).aliases@, arg.aliases@, arg.name),
            forall|i: int|
                0 <= i < arg.aliases@.len() ==> #[trigger] final(self).aliases@.contains_key(
                    arg.aliases@[i]@,
                ) && final(self).aliases@[arg.aliases@[i]@] == arg.name,
            forall|k: Seq<char>|
                #[trigger] final(self).aliases@.contains_key(k) <==> (old(self).aliases@.contains_key(k)
                    || exists|i: int| 0 <= i < arg.aliases@.len() && arg.aliases@[i]@ == k),
            final(self).args@ == old(self).args@.insert(arg.name@, arg),
            final(self).positional@ == (if arg.mode == Mode::Positional {
                old(self).positional@.push(arg.name)
            } else {
                old(self).positional@
            }),
            final(self).variadic == (if arg.mode == Mode::Variadic {
                Some(arg.name)
            } else {
                old(self).variadic
            }),
    {
        arg.add(self);
    }

    /// Reads a command line: its words are split at every single space, and
    /// each word that names an argument (directly or through an alias) is
    /// followed by the words its parameters take; any other word goes to the
    /// variadic argument, or is an unknown argument when there is none.
    pub fn parse<'a>(&mut self, input: &'a String) -> (r: Result<Vec<Input<'a>>, Error>)
        ensures
            *final(self) == *old(self),
            parse_result_view(r) == old(self).parsed(words(input@)),
    {
        let tokens = split_words(input.as_str());
        self.parse_vec(&tokens)
    }

    /// Reads a command line given as its words.
    pub fn parse_vec<'a>(&self, tokens: &Vec<&'a str>) -> (r: Result<Vec<Input<'a>>, Error>)
        ensures
            parse_result_view(r) == self.parsed(views_of(tokens@)),
    {
        let ghost toks = views_of(tokens@);
        let mut inputs: Vec<Input<'a>> = Vec::new();
        let mut extra: Vec<&'a str> = Vec::new();
        let mut pos: usize = 0;
        proof {
            assert(views_of(extra@) =~= Seq::<Seq<char>>::empty());
            assert(inputs_view(inputs@) =~= Seq::<InputView>::empty());
            assert(self.with_extra(views_of(extra@)) + inputs_view(inputs@) =~= self.initial_inputs());
        }
        while pos < tokens.len()
            invariant
                toks == views_of(tokens@),
                pos <= tokens@.len(),
                self.parsed(toks) == self.parse_from(
                    toks,
                    pos as int,
                    self.with_extra(views_of(extra@)) + inputs_view(inputs@),
                ),
            decreases tokens@.len() - pos,
        {
            let ghost acc = self.with_extra(views_of(extra@)) + inputs_view(inputs@);
            let mut arg_input: &'a str = tokens[pos];
            assert(toks[pos as int] == arg_input@);
            match self.aliases.get(arg_input) {
                Some(alias) => {
                    arg_input = *alias;
                },
                None => {},
            }
            let ghost t = arg_input@;
            assert(t == self.resolve(toks[pos as int]));
            match self.args.get(arg_input) {
                Some(arg) => {
                    match self.parse_arg(tokens, pos + 1, arg) {
                        Ok((input, next)) => {
                            proof {
                                self.lemma_take_params_bounds(toks, pos + 1, arg.params@, 0, Seq::empty());
                            }
                            let ghost before = inputs_view(inputs@);
                            inputs.push(input);
                            proof {
                                assert(inputs_view(inputs@) =~= before.push(input_view(input)));
                                assert(acc.push((arg.name@, views_of(input.values@))) =~= self.with_extra(
                                    views_of(extra@),
                                ) + inputs_view(inputs@));
                            }
                            pos = next;
                        },
                        Err(e) => {
                            return Err(e);
                        },
                    }
                },
                None => {
                    if self.variadic.is_some() {
                        let ghost before = views_of(extra@);
                        extra.push(arg_input);
                        proof {
                            assert(views_of(extra@) =~= before.push(t));
                            let v = self.variadic.unwrap();
                            assert(acc[0] == (v@, before));
                            let upd = acc.update(0, (acc[0].0, acc[0].1.push(t)));
                            assert(upd =~= self.with_extra(views_of(extra@)) + inputs_view(inputs@));
                        }
                        pos = pos + 1;
                    } else {
                        return Err(Error::UnknownArgument(arg_input.to_owned()));
                    }
                },
            }
        }
        let ghost acc = self.with_extra(views_of(extra@)) + inputs_view(inputs@);
        let ghost rest = inputs_view(inputs@);
        match self.variadic {
            Some(v) => {
                let first = Input { name: v, values: extra };
                inputs.insert(0, first);
                assert(inputs_view(inputs@) =~= seq![input_view(first)] + rest);
            },
            None => {},
        }
        assert(inputs_view(inputs@) =~= acc);
        Ok(inputs)
    }

    /// Reads the words that `arg`'s parameters take, from position `pos` on.
    pub fn parse_arg<'a>(&self, tokens: &Vec<&'a str>, pos: usize, arg: &Argument) -> (r: Result<
        (Input<'a>, usize),
        Error,
    >)
        requires
            pos <= tokens@.len(),
        ensures
            match r {
                Ok((input, next)) => {
                    &&& input.name == arg.name
                    &&& pos <= next <= tokens@.len()
                    &&& views_of(input.values@) == views_of(tokens@).subrange(pos as int, next as int)
                    &&& self.take_params(views_of(tokens@), pos as int, arg.params@, 0, Seq::empty())
                        == Ok::<_, ErrorView>((views_of(input.values@), next as int))
                },
                Err(e) => self.take_params(views_of(tokens@), pos as int, arg.params@, 0, Seq::empty())
                    == Err::<(Seq<Seq<char>>, int), _>(e@),
            },
    {
        let ghost toks = views_of(tokens@);
        let ghost whole = self.take_params(toks, pos as int, arg.params@, 0, Seq::empty());
        let mut values: Vec<&'a str> = Vec::new();
        let mut cur: usize = pos;
        let mut i: usize = 0;
        assert(views_of(values@) =~= Seq::<Seq<char>>::empty());
        while i < arg.params.len()
            invariant
                toks == views_of(tokens@),
                cur <= tokens@.len(),
                i <= arg.params@.len(),
                whole == self.take_params(toks, cur as int, arg.params@, i as int, views_of(values@)),
                whole == self.take_params(toks, pos as int, arg.params@, 0, Seq::empty()),
            decreases arg.params@.len() - i,
        {
            let param = &arg.params[i];
            let ghost start = cur as int;
            let ghost acc = views_of(values@);
            if param.ninputs == -1 {
                let mut stop = false;
                while !stop && cur < tokens.len()
                    invariant
                        toks == views_of(tokens@),
                        0 <= start <= cur <= tokens@.len(),
                        self.run_end(toks, start) == self.run_end(toks, cur as int),
                        views_of(values@) == acc + toks.subrange(start, cur as int),
                        stop ==> cur < tokens@.len() && self.ends_run(toks[cur as int]),
                    decreases tokens@.len() - cur + (if stop { 0int } else { 1int }),
                {
                    let next = tokens[cur];
                    assert(toks[cur as int] == next@);
                    if self.aliases.contains_key(next) || self.args.contains_key(next) {
                        stop = true;
                    } else {
                        let ghost before = views_of(values@);
                        values.push(next);
                        cur = cur + 1;
                        assert(views_of(values@) =~= before.push(next@));
                        assert(toks.subrange(start, cur as int) =~= toks.subrange(start, cur - 1).push(
                            toks[cur - 1],
                        ));
                        assert(views_of(values@) =~= acc + toks.subrange(start, cur as int));
                    }
                }
                assert(self.run_end(toks, cur as int) == cur);
            } else if param.ninputs > 0 {
                let n = param.ninputs as usize;
                let mut k: usize = 0;
                while k < n
                    invariant
                        toks == views_of(tokens@),
                        n == param.ninputs,
                        k <= n,
                        0 <= start,
                        cur == start + k,
                        cur <= tokens@.len(),
                        views_of(values@) == acc + toks.subrange(start, cur as int),
                        i < arg.params@.len(),
                        arg.params@[i as int] == *param,
                        whole == self.take_params(toks, start, arg.params@, i as int, acc),
                        whole == self.take_params(toks, pos as int, arg.params@, 0, Seq::empty()),
                    decreases n - k,
                {
                    if cur >= tokens.len() {
                        assert(self.take_param(toks, start, *param) == Err::<(Seq<Seq<char>>, int), _>(
                            ErrorView::ExpectedParameter(param.name@),
                        ));
                        assert(whole == Err::<(Seq<Seq<char>>, int), _>(ErrorView::ExpectedParameter(param.name@)));
                        let owned = param.name.to_owned();
                        assert(owned@ == param.name@);
                        let err = Error::ExpectedParameter(owned);
                        assert(err@ == ErrorView::ExpectedParameter(param.name@));
                        return Err(err);
                    }
                    let ghost before = views_of(values@);
                    values.push(tokens[cur]);
                    assert(views_of(values@) =~= before.push(toks[cur as int]));
                    cur = cur + 1;
                    k = k + 1;
                    assert(toks.subrange(start, cur as int) =~= toks.subrange(start, cur - 1).push(
                        toks[cur - 1],
                    ));
                    assert(views_of(values@) =~= acc + toks.subrange(start, cur as int));
                }
            } else {
                assert(toks.subrange(start, start) =~= Seq::<Seq<char>>::empty());
                assert(views_of(values@) =~= acc + Seq::<Seq<char>>::empty());
            }
            assert(self.take_param(toks, start, *param) == Ok::<_, ErrorView>((toks.subrange(start, cur as int), cur as int)));
            i = i + 1;
        }
        proof {
            crate::laws::lemma_taken_words_in_order(*self, toks, pos as int, arg.params@, 0, Seq::empty());
            assert(Seq::<Seq<char>>::empty() + toks.subrange(pos as int, cur as int) =~= toks.subrange(
                pos as int,
                cur as int,
            ));
        }
        Ok((Input { name: arg.name, values }, cur))
    }
}

} // verus!
