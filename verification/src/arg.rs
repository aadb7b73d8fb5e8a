use vstd::prelude::*;
use crate::clip::Clip;
use crate::text::{decimal, join_with, lemma_join_layout, lemma_join_piece_bounds, lemma_join_sep_bounds, lemma_piece_start_sum, lens_before, piece_start, push_decimal};

verus! {

/// The kind of value an argument or a parameter takes.
#[derive(Debug, PartialEq)]
pub enum Type {
    Any,
    Integer,
    Number,
    String,
    File,
    Enum(&'static [&'static str]),
    Range { lower: i32, upper: i32 },
}

/// How an argument is given on the command line: by its name (a flag), by
/// position, or as the catch-all for words that belong to no argument.
#[derive(Debug, PartialEq)]
pub enum Mode {
    Flag,
    Positional,
    Variadic,
}

/// One argument of a command line and what it takes.
#[derive(Debug)]
pub struct Argument {
    pub name: &'static str,
    pub aliases: Vec<&'static str>,
    pub params: Vec<Parameter>,
    pub help: String,
    pub arg_type: Type,
    pub mode: Mode,
}

/// A parameter of an argument: how many words it takes (`-1` for as many as
/// follow up to the next argument name or alias) and of which type.
#[derive(Debug, PartialEq)]
pub struct Parameter {
    pub name: &'static str,
    pub ninputs: i32,
    pub input_type: Type,
}

pub open spec fn views_of_names(names: Seq<&'static str>) -> Seq<Seq<char>> {
    names.map_values(|n: &'static str| n@)
}

/// The text that describes a type.
pub open spec fn type_text(t: Type) -> Seq<char> {
    match t {
        Type::Any => "Any"@,
        Type::Integer => "Integer"@,
        Type::Number => "Number"@,
        Type::String => "String"@,
        Type::File => "File"@,
        Type::Enum(vals) => "Set::["@ + join_with(views_of_names(vals@), ", "@) + "]"@,
        Type::Range { lower, upper } => "Range::["@ + decimal(lower as int) + "-"@ + decimal(
            upper as int,
        ) + "]"@,
    }
}

proof fn lemma_middle(pre: Seq<char>, j: Seq<char>, post: Seq<char>, a: int, b: int)
    requires
        0 <= a <= b <= j.len(),
    ensures
        (pre + j + post).subrange(pre.len() + a, pre.len() + b) == j.subrange(a, b),
{
    assert((pre + j + post).subrange(pre.len() + a, pre.len() + b) =~= j.subrange(a, b));
}

proof fn lemma_bracketed(ws: Seq<Seq<char>>, pre: Seq<char>, sep: Seq<char>, post: Seq<char>)
    requires
        ws.len() >= 1,
    ensures
        ({
            let t = pre + join_with(ws, sep) + post;
            let sl = sep.len() as int;
            let p = pre.len() as int;
            &&& t.len() == p + piece_start(ws, sl, ws.len() - 1) + ws.last().len() + post.len()
            &&& forall|k: int|
                0 <= k < ws.len() ==> t.subrange(p + piece_start(ws, sl, k), p + piece_start(ws, sl, k) + ws[k].len())
                    == #[trigger] ws[k]
            &&& forall|k: int|
                0 <= k < ws.len() - 1 ==> t.subrange(
                    p + #[trigger] piece_start(ws, sl, k) + ws[k].len(),
                    p + piece_start(ws, sl, k + 1),
                ) == sep
        }),
{
    let j = join_with(ws, sep);
    let sl = sep.len() as int;
    lemma_join_layout(ws, sep);
    assert forall|k: int| 0 <= k < ws.len() implies (pre + j + post).subrange(
        pre.len() + piece_start(ws, sl, k),
        pre.len() + piece_start(ws, sl, k) + ws[k].len(),
    ) == #[trigger] ws[k] by {
        lemma_join_piece_bounds(ws, sep, k);
        lemma_middle(pre, j, post, piece_start(ws, sl, k), piece_start(ws, sl, k) + ws[k].len());
    }
    assert forall|k: int| 0 <= k < ws.len() - 1 implies (pre + j + post).subrange(
        pre.len() + #[trigger] piece_start(ws, sl, k) + ws[k].len(),
        pre.len() + piece_start(ws, sl, k + 1),
    ) == sep by {
        lemma_join_sep_bounds(ws, sep, k);
        lemma_middle(pre, j, post, piece_start(ws, sl, k) + ws[k].len(), piece_start(ws, sl, k + 1));
    }
}

/// The text of a set of values: `Set::[`, then every value whole and in
/// order, with `, ` between each two, then `]`; nothing is left out, so the
/// length is 7 plus the values' lengths plus 2 for each separator.
pub proof fn lemma_enum_text(vals: &'static [&'static str])
    ensures
        ({
            let t = type_text(Type::Enum(vals));
            let ws = views_of_names(vals@);
            let n = ws.len() as int;
            &&& t.len() >= 7
            &&& t.subrange(0, 6) == "Set::["@
            &&& t[t.len() - 1] == ']'
            &&& n == 0 ==> t == "Set::[]"@
            &&& n > 0 ==> t.len() == 7 + lens_before(ws, n) + 2 * (n - 1)
            &&& forall|k: int|
                0 <= k < n ==> t.subrange(6 + piece_start(ws, 2, k), 6 + piece_start(ws, 2, k) + ws[k].len())
                    == #[trigger] ws[k]
            &&& forall|k: int|
                0 <= k < n - 1 ==> t.subrange(
                    6 + #[trigger] piece_start(ws, 2, k) + ws[k].len(),
                    6 + piece_start(ws, 2, k + 1),
                ) == ", "@
        }),
{
    reveal_strlit("Set::[");
    reveal_strlit("]");
    reveal_strlit(", ");
    reveal_strlit("Set::[]");
    let t = type_text(Type::Enum(vals));
    let ws = views_of_names(vals@);
    let n = ws.len() as int;
    let j = join_with(ws, ", "@);
    assert(t == "Set::["@ + j + "]"@);
    assert(t.subrange(0, 6) =~= "Set::["@);
    if n == 0 {
        assert(t =~= "Set::[]"@);
    } else {
        lemma_bracketed(ws, "Set::["@, ", "@, "]"@);
        lemma_piece_start_sum(ws, 2, n - 1);
        lemma_join_layout(ws, ", "@);
    }
}

impl Type {
    /// The text that describes this type, such as `Set::[a, b]` or `Range::[1-9]`.
    pub fn to_display_string(&self) -> (s: String)
        ensures
            s@ == type_text(*self),
    {
        let mut s = String::new();
        match self {
            Type::Any => s.append("Any"),
            Type::Integer => s.append("Integer"),
            Type::Number => s.append("Number"),
            Type::String => s.append("String"),
            Type::File => s.append("File"),
            Type::Enum(vals) => {
                s.append("Set::[");
                let ghost head = s@;
                let mut i: usize = 0;
                while i < vals.len()
                    invariant
                        i <= vals@.len(),
                        s@ == head + join_with(views_of_names(vals@.take(i as int)), ", "@),
                    decreases vals@.len() - i,
                {
                    let ghost before = s@;
                    if i > 0 {
                        s.append(", ");
                    }
                    s.append(vals[i]);
                    proof {
                        let ws = views_of_names(vals@.take(i + 1));
                        assert(ws.drop_last() =~= views_of_names(vals@.take(i as int)));
                        assert(s@ =~= head + join_with(ws, ", "@));
                    }
                    i = i + 1;
                }
                assert(vals@.take(vals@.len() as int) =~= vals@);
                s.append("]");
            },
            Type::Range { lower, upper } => {
                s.append("Range::[");
                push_decimal(&mut s, *lower);
                s.append("-");
                push_decimal(&mut s, *upper);
                s.append("]");
            },
        }
        s
    }
}

impl Argument {
    /// Whether this argument may be added to `parser`: only a flag has aliases
    /// and parameters, neither its name nor any of its aliases is taken, and a
    /// parser has at most one variadic argument.
    pub open spec fn fits(&self, parser: &Clip) -> bool {
        &&& self.mode != Mode::Flag ==> self.aliases@.len() == 0 && self.params@.len() == 0
        &&& !parser.args@.contains_key(self.name@)
        &&& self.mode == Mode::Variadic ==> parser.variadic.is_none()
        &&& forall|i: int|
            0 <= i < self.aliases@.len() ==> !parser.aliases@.contains_key(
                #[trigger] self.aliases@[i]@,
            )
    }

    /// A parameter that takes a variable number of words (`ninputs == -1`) is
    /// the last parameter, if there is one.
    pub open spec fn variable_count_last(&self) -> bool {
        forall|i: int| 0 <= i && i + 1 < self.params@.len() ==> #[trigger] self.params@[i].ninputs != -1
    }

    /// Makes this argument positional, taking a value of type `t`.
    pub fn positional(self, t: Type) -> (r: Self)
        ensures
            r.name == self.name,
            r.aliases == self.aliases,
            r.params == self.params,
            r.help == self.help,
            r.arg_type == t,
            r.mode == Mode::Positional,
            self.variable_count_last() ==> r.variable_count_last(),
    {
        let mut a = self;
        a.mode = Mode::Positional;
        a.arg_type = t;
        a
    }

    /// Makes this argument the catch-all for words that belong to no other
    /// argument, taking values of type `t`.
    pub fn variadic(self, t: Type) -> (r: Self)
        ensures
            r.name == self.name,
            r.aliases == self.aliases,
            r.params == self.params,
            r.help == self.help,
            r.arg_type == t,
            r.mode == Mode::Variadic,
            self.variable_count_last() ==> r.variable_count_last(),
    {
        let mut a = self;
        a.mode = Mode::Variadic;
        a.arg_type = t;
        a
    }

    /// Adds another name by which this argument can be given.
    pub fn alias(self, name: &'static str) -> (r: Self)
        ensures
            r.name == self.name,
            r.aliases@ == self.aliases@.push(name),
            r.params == self.params,
            r.help == self.help,
            r.arg_type == self.arg_type,
            r.mode == self.mode,
            self.variable_count_last() ==> r.variable_count_last(),
    {
        let mut a = self;
        a.aliases.push(name);
        a
    }

    /// Adds a parameter that takes `nargs` words of type `input_type`; with
    /// `nargs == -1` it takes every word up to the next argument name or alias,
    /// and then it must be the last parameter.
    pub fn add_param(self, name: &'static str, nargs: i32, input_type: Type) -> (r: Self)
        requires
            self.params@.len() > 0 ==> self.params@.last().ninputs != -1,
        ensures
            r.name == self.name,
            r.aliases == self.aliases,
            r.params@ == self.params@.push(Parameter { name, ninputs: nargs, input_type }),
            r.help == self.help,
            r.arg_type == self.arg_type,
            r.mode == self.mode,
            self.variable_count_last() ==> r.variable_count_last(),
    {
        let mut a = self;
        a.params.push(Parameter { name, ninputs: nargs, input_type });
        a
    }

    /// Sets the help text of this argument.
    pub fn help(self, help_text: &'static str) -> (r: Self)
        ensures
            r.name == self.name,
            r.aliases == self.aliases,
            r.params == self.params,
            r.help@ == help_text@,
            r.arg_type == self.arg_type,
            r.mode == self.mode,
            self.variable_count_last() ==> r.variable_count_last(),
    {
        let mut a = self;
        a.help = help_text.to_owned();
        a
    }

    /// The check made before this argument is added to `parser`: it accepts
    /// only an argument that fits (see `fits`) and refuses every other one.
    pub fn verify(&self, parser: &Clip)
        requires
            self.fits(parser),
    {
        let ok = self.fits_in(parser);
        assert(ok);
    }

    /// Answers whether this argument may be added to `parser` (see `fits`), so
    /// that a caller can meet the precondition of `verify` and `add`.
    pub fn fits_in(&self, parser: &Clip) -> (ok: bool)
        ensures
            ok == self.fits(parser),
    {
        match self.mode {
            Mode::Flag => {},
            Mode::Variadic => {
                if self.aliases.len() != 0 {
                    return false;
                }
                if self.params.len() != 0 {
                    return false;
                }
                if parser.variadic.is_some() {
                    return false;
                }
            },
            Mode::Positional => {
                if self.aliases.len() != 0 {
                    return false;
                }
                if self.params.len() != 0 {
                    return false;
                }
            },
        }
        if parser.args.contains_key(self.name) {
            return false;
        }
        let mut i: usize = 0;
        while i < self.aliases.len()
            invariant
                i <= self.aliases@.len(),
                forall|j: int|
                    0 <= j < i ==> !parser.aliases@.contains_key(#[trigger] self.aliases@[j]@),
            decreases self.aliases@.len() - i,
        {
            if parser.aliases.contains_key(self.aliases[i]) {
                return false;
            }
            i = i + 1;
        }
        true
    }

    /// Adds this argument to `parser`: its aliases lead to its name, and a
    /// positional or variadic argument is also recorded as such.
    pub fn add(self, parser: &mut Clip)
        requires
            self.fits(old(parser)),
        ensures
            final(parser).program_name == old(parser).program_name,
            final(parser).aliases@ == aliases_to(old(parser).aliases@, self.aliases@, self.name),
            forall|i: int|
                0 <= i < self.aliases@.len() ==> #[trigger] final(parser).aliases@.contains_key(
                    self.aliases@[i]@,
                ) && final(parser).aliases@[self.aliases@[i]@] == self.name,
            forall|k: Seq<char>|
                #[trigger] final(parser).aliases@.contains_key(k) <==> (old(parser).aliases@.contains_key(k)
                    || exists|i: int| 0 <= i < self.aliases@.len() && self.aliases@[i]@ == k),
            final(parser).args@ == old(parser).args@.insert(self.name@, self),
            final(parser).positional@ == (if self.mode == Mode::Positional {
                old(parser).positional@.push(self.name)
            } else {
                old(parser).positional@
            }),
            final(parser).variadic == (if self.mode == Mode::Variadic {
                Some(self.name)
            } else {
                old(parser).variadic
            }),
    {
        proof {
            lemma_aliases_to(old(parser).aliases@, self.aliases@, self.name);
        }
        self.verify(parser);
        let mut i: usize = 0;
        while i < self.aliases.len()
            invariant
                i <= self.aliases@.len(),
                parser.aliases@ == aliases_to(old(parser).aliases@, self.aliases@.take(i as int), self.name),
                parser.args == old(parser).args,
                parser.program_name == old(parser).program_name,
                parser.positional == old(parser).positional,
                parser.variadic == old(parser).variadic,
            decreases self.aliases@.len() - i,
        {
            parser.aliases.insert(self.aliases[i], self.name);
            assert(self.aliases@.take(i + 1).drop_last() =~= self.aliases@.take(i as int));
            i = i + 1;
        }
        assert(self.aliases@.take(self.aliases@.len() as int) =~= self.aliases@);
        match self.mode {
            Mode::Variadic => parser.variadic = Some(self.name),
            Mode::Positional => parser.positional.push(self.name),
            _ => {},
        }
        parser.args.insert(self.name, self);
    }
}

/// The alias table after each of `names` in turn is made to lead to `target`.
pub open spec fn aliases_to(
    m: Map<Seq<char>, &'static str>,
    names: Seq<&'static str>,
    target: &'static str,
) -> Map<Seq<char>, &'static str>
    decreases names.len(),
{
    if names.len() == 0 {
        m
    } else {
        aliases_to(m, names.drop_last(), target).insert(names.last()@, target)
    }
}

/// A flag or positional argument fits whenever its name and aliases are free
/// (and, for a positional one, it has no aliases or parameters), whatever
/// variadic argument the parser already has.
pub proof fn lemma_non_variadic_fits(a: Argument, parser: Clip)
    requires
        a.mode != Mode::Variadic,
        a.mode != Mode::Flag ==> a.aliases@.len() == 0 && a.params@.len() == 0,
        !parser.args@.contains_key(a.name@),
        forall|i: int| 0 <= i < a.aliases@.len() ==> !parser.aliases@.contains_key(#[trigger] a.aliases@[i]@),
    ensures
        a.fits(&parser),
{
}

/// A variadic argument with a free name and no aliases or parameters fits
/// exactly when the parser has no variadic argument yet.
pub proof fn lemma_variadic_fits(a: Argument, parser: Clip)
    requires
        a.mode == Mode::Variadic,
        a.aliases@.len() == 0,
        a.params@.len() == 0,
        !parser.args@.contains_key(a.name@),
    ensures
        a.fits(&parser) <==> parser.variadic.is_none(),
{
}

/// What is refused: aliases or parameters on an argument that is not a flag,
/// a name already taken, an alias already taken, and a second variadic
/// argument.
pub proof fn lemma_refused(a: Argument, parser: Clip)
    ensures
        a.mode != Mode::Flag && (a.aliases@.len() > 0 || a.params@.len() > 0) ==> !a.fits(&parser),
        parser.args@.contains_key(a.name@) ==> !a.fits(&parser),
        (exists|i: int| 0 <= i < a.aliases@.len() && parser.aliases@.contains_key(#[trigger] a.aliases@[i]@))
            ==> !a.fits(&parser),
        a.mode == Mode::Variadic && parser.variadic.is_some() ==> !a.fits(&parser),
{
}

/// Adding aliases routes every one of them to the target and touches nothing
/// else: each of `names` leads to `target`, the table's names are the old ones
/// and `names`, and every other name keeps its value.
pub proof fn lemma_aliases_to(
    m: Map<Seq<char>, &'static str>,
    names: Seq<&'static str>,
    target: &'static str,
)
    ensures
        forall|i: int|
            0 <= i < names.len() ==> #[trigger] aliases_to(m, names, target).contains_key(names[i]@)
                && aliases_to(m, names, target)[names[i]@] == target,
        forall|k: Seq<char>|
            #[trigger] aliases_to(m, names, target).contains_key(k) <==> (m.contains_key(k) || exists|i: int|
                0 <= i < names.len() && names[i]@ == k),
        forall|k: Seq<char>|
            (forall|i: int| 0 <= i < names.len() ==> names[i]@ != k) && m.contains_key(k) ==> #[trigger] aliases_to(
                m,
                names,
                target,
            )[k] == m[k],
    decreases names.len(),
{
    if names.len() > 0 {
        let d = names.drop_last();
        lemma_aliases_to(m, d, target);
        let r = aliases_to(m, names, target);
        assert forall|i: int| 0 <= i < names.len() implies #[trigger] r.contains_key(names[i]@) && r[names[i]@]
            == target by {
            if i < d.len() {
                assert(names[i] == d[i]);
                assert(aliases_to(m, d, target).contains_key(d[i]@));
                assert(aliases_to(m, d, target)[d[i]@] == target);
            }
        }
        assert forall|k: Seq<char>| #[trigger] r.contains_key(k) <==> (m.contains_key(k) || exists|i: int|
            0 <= i < names.len() && names[i]@ == k) by {
            if exists|i: int| 0 <= i < names.len() && names[i]@ == k {
                let i = choose|i: int| 0 <= i < names.len() && names[i]@ == k;
                if i < d.len() {
                    assert(d[i]@ == k);
                }
            }
            if aliases_to(m, d, target).contains_key(k) && !m.contains_key(k) {
                let i = choose|i: int| 0 <= i < d.len() && d[i]@ == k;
                assert(names[i]@ == k);
            }
            if k == names.last()@ {
                assert(names[names.len() - 1]@ == k);
            }
        }
        assert forall|k: Seq<char>|
            (forall|i: int| 0 <= i < names.len() ==> names[i]@ != k) && m.contains_key(k) implies #[trigger] r[k]
                == m[k] by {
            assert forall|i: int| 0 <= i < d.len() implies d[i]@ != k by {
                assert(names[i] == d[i]);
            }
            assert(names[names.len() - 1]@ != k);
            assert(aliases_to(m, d, target)[k] == m[k]);
        }
    }
}

/// A new flag argument named `name`, with no aliases, no parameters, no help
/// text and type `Any`.
pub fn create_arg(name: &'static str) -> (a: Argument)
    ensures
        a.name == name,
        a.aliases@.len() == 0,
        a.params@.len() == 0,
        a.help@.len() == 0,
        a.arg_type == Type::Any,
        a.mode == Mode::Flag,
        a.variable_count_last(),
{
    return Argument {
        name,
        aliases: Vec::new(),
        params: Vec::new(),
        help: String::new(),
        arg_type: Type::Any,
        mode: Mode::Flag,
    };
}

} // verus!
