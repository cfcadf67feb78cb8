use vstd::prelude::*;

verus! {

use vstd::string::StringExecFns;
use crate::utils::value_map::ValueMap;

/// The full command-line forms of a declared option: `--long` and `-short`.
#[derive(Debug)]
pub struct Names {
    pub long: String,
    pub short: String,
}

/// A resolved option value: flags carry a boolean, valued options carry a
/// converted value of the caller's value type.
#[derive(Debug)]
pub enum Value<T> {
    Flag(bool),
    Value(T),
}

/// The pairing of an option identifier with the outcome of resolving one
/// matched token, before it is folded into the output mapping.
#[derive(Debug)]
pub struct Argument<T, E> {
    pub key: String,
    pub value: Result<Value<T>, E>,
}

/// The two terminal parse failures.
#[derive(Debug)]
pub enum ArgumentError<E> {
    UnrecognizedArgument(String),
    AcceptanceError(E),
}

/// One entry of the declaration table: identifier, command-line names,
/// human-readable description, the optional value converter, and the
/// optional default recorded for help rendering.
#[derive(Debug)]
pub struct Declaration<ArgType, F> {
    pub id: String,
    pub names: Names,
    pub description: String,
    pub accept: Option<F>,
    pub default: Option<Value<ArgType>>,
}

/// The declaration table plus its banner description. Declarations are kept
/// in registration order; earlier declarations win when names collide.
#[derive(Debug)]
pub struct Parser<ArgType, ErrType, F> {
    description: String,
    args: Vec<Declaration<ArgType, F>>,
    errors: core::marker::PhantomData<ErrType>,
}

/// The `--`-prefixed long form of a declared name.
pub open spec fn long_form(name: Seq<char>) -> Seq<char> {
    seq!['-', '-'] + name
}

/// The `-`-prefixed short form of a declared name.
pub open spec fn short_form(name: Seq<char>) -> Seq<char> {
    seq!['-'] + name
}

/// The built-in declaration that `build` installs first.
pub open spec fn is_help_declaration<A, F>(d: Declaration<A, F>) -> bool {
    &&& d.id@ == "help"@
    &&& d.names.long@ == "--help"@
    &&& d.names.short@ == "-h"@
    &&& d.description@ == "display help information"@
    &&& d.accept is None
    &&& d.default is None
}

/// The identifier, names and description that `arg`, `arg_default` and
/// `flag` record for the caller-given raw names.
pub open spec fn declares_option<A, F>(
    d: Declaration<A, F>,
    long: Seq<char>,
    short: Seq<char>,
    desc: Seq<char>,
) -> bool {
    &&& d.id@ == long
    &&& d.names.long@ == long_form(long)
    &&& d.names.short@ == short_form(short)
    &&& d.description@ == desc
}

/// Whether `token` equals one of the declaration's two names.
pub open spec fn decl_matches<A, F>(d: Declaration<A, F>, token: Seq<char>) -> bool {
    d.names.long@ == token || d.names.short@ == token
}

/// Whether `token` names the declaration and the declaration is a flag.
pub open spec fn flag_matches<A, F>(d: Declaration<A, F>, token: Seq<char>) -> bool {
    decl_matches(d, token) && d.accept is None
}

pub open spec fn first_match_from<A, F>(
    decls: Seq<Declaration<A, F>>,
    token: Seq<char>,
    i: int,
) -> Option<int>
    decreases decls.len() - i,
{
    if i < 0 || i >= decls.len() {
        None
    } else if decl_matches(decls[i], token) {
        Some(i)
    } else {
        first_match_from(decls, token, i + 1)
    }
}

/// The first declaration, in registration order, that `token` names.
pub open spec fn first_match<A, F>(decls: Seq<Declaration<A, F>>, token: Seq<char>) -> Option<int> {
    first_match_from(decls, token, 0)
}

pub open spec fn first_flag_match_from<A, F>(
    decls: Seq<Declaration<A, F>>,
    token: Seq<char>,
    i: int,
) -> Option<int>
    decreases decls.len() - i,
{
    if i < 0 || i >= decls.len() {
        None
    } else if flag_matches(decls[i], token) {
        Some(i)
    } else {
        first_flag_match_from(decls, token, i + 1)
    }
}

/// The first flag declaration, in registration order, that `token` names;
/// valued declarations are skipped even when their names match.
pub open spec fn first_flag_match<A, F>(
    decls: Seq<Declaration<A, F>>,
    token: Seq<char>,
) -> Option<int> {
    first_flag_match_from(decls, token, 0)
}

/// One matched step of the general scan: a flag resolution, or a valued
/// resolution that consumed the token at position `value_at` (`value_at`
/// equal to the input length stands for the sentinel empty string).
pub enum ScanStep {
    Flag { decl: int },
    Valued { decl: int, value_at: int },
}

/// The deterministic part of the general scan: the matched steps in order,
/// and the position of the first unrecognized token, if one was reached.
pub struct ScanOutcome {
    pub steps: Seq<ScanStep>,
    pub unrecognized_at: Option<int>,
}

pub open spec fn step_decl(s: ScanStep) -> int {
    match s {
        ScanStep::Flag { decl } => decl,
        ScanStep::Valued { decl, .. } => decl,
    }
}

/// The general scan from token position `i`: a matched flag advances by
/// one, a matched valued declaration consumes the following position, and
/// an unmatched token stops the scan.
pub open spec fn scan_from<A, F>(
    decls: Seq<Declaration<A, F>>,
    toks: Seq<String>,
    i: int,
) -> ScanOutcome
    decreases toks.len() - i,
{
    if i < 0 || i >= toks.len() {
        ScanOutcome { steps: Seq::empty(), unrecognized_at: None }
    } else {
        match first_match(decls, toks[i]@) {
            None => ScanOutcome { steps: Seq::empty(), unrecognized_at: Some(i) },
            Some(d) => {
                if decls[d].accept is Some {
                    let rest = if i + 2 <= toks.len() {
                        scan_from(decls, toks, i + 2)
                    } else {
                        ScanOutcome { steps: Seq::empty(), unrecognized_at: None }
                    };
                    ScanOutcome {
                        steps: seq![ScanStep::Valued { decl: d, value_at: i + 1 }] + rest.steps,
                        unrecognized_at: rest.unrecognized_at,
                    }
                } else {
                    let rest = scan_from(decls, toks, i + 1);
                    ScanOutcome {
                        steps: seq![ScanStep::Flag { decl: d }] + rest.steps,
                        unrecognized_at: rest.unrecognized_at,
                    }
                }
            },
        }
    }
}

/// The output mapping that a run of the scan produces when step `j`
/// resolved to `vals[j]`: each step binds its declaration's identifier,
/// later steps overwriting earlier ones.
pub open spec fn steps_map<A, F>(
    decls: Seq<Declaration<A, F>>,
    steps: Seq<ScanStep>,
    vals: Seq<Value<A>>,
) -> Map<Seq<char>, Value<A>>
    decreases steps.len(),
{
    if steps.len() == 0 {
        Map::empty()
    } else {
        steps_map(decls, steps.drop_last(), vals.drop_last()).insert(
            decls[step_decl(steps.last())].id@,
            vals.last(),
        )
    }
}

/// Whether the declaration's converter, if any, may be invoked on `s`.
pub open spec fn converter_callable_on<A, E, F: Fn(String) -> Result<A, E>>(
    d: Declaration<A, F>,
    s: String,
) -> bool {
    d.accept matches Some(f) ==> call_requires(f, (s,))
}

/// Whether `v` is a value the converter `f` may return for the token at
/// position `at` (the sentinel empty string when `at` is out of range).
pub open spec fn converter_accepts<A, E, F: Fn(String) -> Result<A, E>>(
    f: F,
    toks: Seq<String>,
    at: int,
    v: A,
) -> bool {
    if 0 <= at < toks.len() {
        call_ensures(f, (toks[at],), Ok::<A, E>(v))
    } else {
        exists|s: String| s@ == Seq::<char>::empty() && call_ensures(f, (s,), Ok::<A, E>(v))
    }
}

/// Whether `e` is an error the converter `f` may return for the token at
/// position `at` (the sentinel empty string when `at` is out of range).
pub open spec fn converter_rejects<A, E, F: Fn(String) -> Result<A, E>>(
    f: F,
    toks: Seq<String>,
    at: int,
    e: E,
) -> bool {
    if 0 <= at < toks.len() {
        call_ensures(f, (toks[at],), Err::<A, E>(e))
    } else {
        exists|s: String| s@ == Seq::<char>::empty() && call_ensures(f, (s,), Err::<A, E>(e))
    }
}

/// Whether the converter `f` succeeds on every outcome for the token at
/// position `at` (the sentinel empty string when `at` is out of range).
pub open spec fn converter_total<A, E, F: Fn(String) -> Result<A, E>>(
    f: F,
    toks: Seq<String>,
    at: int,
) -> bool {
    if 0 <= at < toks.len() {
        forall|ret: Result<A, E>| call_ensures(f, (toks[at],), ret) ==> ret is Ok
    } else {
        forall|s: String, ret: Result<A, E>|
            s@ == Seq::<char>::empty() && call_ensures(f, (s,), ret) ==> ret is Ok
    }
}

/// Whether `val` is a resolution the given step may produce: flags resolve
/// to `Flag(true)`, valued steps to `Value(v)` for an outcome `v` of their
/// declaration's converter on the consumed token.
pub open spec fn step_ok<A, E, F: Fn(String) -> Result<A, E>>(
    decls: Seq<Declaration<A, F>>,
    toks: Seq<String>,
    step: ScanStep,
    val: Value<A>,
) -> bool {
    match step {
        ScanStep::Flag { .. } => val == Value::<A>::Flag(true),
        ScanStep::Valued { decl, value_at } => {
            &&& 0 <= decl < decls.len()
            &&& decls[decl].accept is Some
            &&& (exists|v: A|
                val == Value::<A>::Value(v) && converter_accepts(
                    decls[decl].accept->0,
                    toks,
                    value_at,
                    v,
                ))
        },
    }
}

/// Whether `vals` resolves every scanned step consistently with the
/// declarations' converters.
pub open spec fn vals_consistent<A, E, F: Fn(String) -> Result<A, E>>(
    decls: Seq<Declaration<A, F>>,
    toks: Seq<String>,
    steps: Seq<ScanStep>,
    vals: Seq<Value<A>>,
) -> bool {
    &&& vals.len() == steps.len()
    &&& forall|j: int| #![trigger steps[j]]
        0 <= j < steps.len() ==> step_ok(decls, toks, steps[j], vals[j])
}

/// Whether every valued step's converter succeeds on every outcome.
pub open spec fn scan_converters_total<A, E, F: Fn(String) -> Result<A, E>>(
    decls: Seq<Declaration<A, F>>,
    toks: Seq<String>,
    steps: Seq<ScanStep>,
) -> bool {
    forall|j: int| #![trigger steps[j]]
        0 <= j < steps.len() ==> (steps[j] matches ScanStep::Valued { decl, value_at }
            ==> converter_total::<A, E, F>(decls[decl].accept->0, toks, value_at))
}

/// Everything `parse` promises of its result, over the declaration table
/// and the raw token sequence; see `general_post` for inputs of two or
/// more tokens.
pub open spec fn parse_post<A, E, F: Fn(String) -> Result<A, E>>(
    decls: Seq<Declaration<A, F>>,
    toks: Seq<String>,
    r: Result<ValueMap<A>, ArgumentError<E>>,
) -> bool {
    &&& (toks.len() == 0 ==> (r matches Err(ArgumentError::UnrecognizedArgument(u)) && u@
        == Seq::<char>::empty()))
    &&& (toks.len() == 1 ==> match first_flag_match(decls, toks[0]@) {
        Some(d) => r matches Ok(m) && m@ == Map::<Seq<char>, Value<A>>::empty().insert(
            decls[d].id@,
            Value::Flag(true),
        ),
        None => r == Err::<ValueMap<A>, ArgumentError<E>>(
            ArgumentError::UnrecognizedArgument(toks[0]),
        ),
    })
    &&& (toks.len() >= 2 ==> general_post(decls, toks, r))
}

/// What the general scan path promises: a returned mapping folds the
/// scanned steps with converter-consistent values; an unrecognized-token
/// error names the token the scan stalled on; a converter error was
/// produced by the first failing valued step; and when no scanned
/// converter can fail the outcome is fully determined by the scan.
pub open spec fn general_post<A, E, F: Fn(String) -> Result<A, E>>(
    decls: Seq<Declaration<A, F>>,
    toks: Seq<String>,
    r: Result<ValueMap<A>, ArgumentError<E>>,
) -> bool {
    let outcome = scan_from(decls, toks, 0);
    &&& (r matches Ok(m) ==> {
        &&& outcome.unrecognized_at is None
        &&& (exists|vals: Seq<Value<A>>|
            vals_consistent(decls, toks, outcome.steps, vals) && m@ == steps_map(
                decls,
                outcome.steps,
                vals,
            ))
    })
    &&& (r matches Err(e) ==> match e {
        ArgumentError::UnrecognizedArgument(u) => {
            &&& outcome.unrecognized_at matches Some(idx) && u == toks[idx]
            &&& (exists|vals: Seq<Value<A>>| vals_consistent(decls, toks, outcome.steps, vals))
        },
        ArgumentError::AcceptanceError(err) => exists|j: int|
            #![trigger outcome.steps[j]]
            {
                &&& 0 <= j < outcome.steps.len()
                &&& (exists|vals: Seq<Value<A>>|
                    vals_consistent(decls, toks, outcome.steps.take(j), vals))
                &&& outcome.steps[j] matches ScanStep::Valued { decl, value_at }
                    && converter_rejects(decls[decl].accept->0, toks, value_at, err)
            },
    })
    &&& (scan_converters_total(decls, toks, outcome.steps) ==> match outcome.unrecognized_at {
        None => r is Ok,
        Some(idx) => r == Err::<ValueMap<A>, ArgumentError<E>>(
            ArgumentError::UnrecognizedArgument(toks[idx]),
        ),
    })
}

fn make_names(long_name: &str, short_name: &str) -> (n: Names)
    ensures
        n.long@ == long_form(long_name@),
        n.short@ == short_form(short_name@),
{
    let mut long: String = "--".to_owned();
    long.append(long_name);
    let mut short: String = "-".to_owned();
    short.append(short_name);
    proof {
        reveal_strlit("--");
        reveal_strlit("-");
        assert(long@ =~= long_form(long_name@));
        assert(short@ =~= short_form(short_name@));
    }
    Names { long, short }
}

impl<ArgType, ErrType, F> Parser<ArgType, ErrType, F> {
    /// The declaration table, in registration order.
    pub closed spec fn decls(self) -> Seq<Declaration<ArgType, F>> {
        self.args@
    }

    /// The banner description given to `build`.
    pub closed spec fn spec_description(self) -> Seq<char> {
        self.description@
    }

    /// The banner description, for help rendering.
    pub fn description(&self) -> (r: &String)
        ensures
            r@ == self.spec_description(),
    {
        &self.description
    }

    /// Read-only access to the declaration table, for help rendering.
    pub fn declarations(&self) -> (r: &Vec<Declaration<ArgType, F>>)
        ensures
            r@ == self.decls(),
    {
        &self.args
    }
}

impl<ArgType, ErrType, F: Fn(String) -> Result<ArgType, ErrType>> Parser<ArgType, ErrType, F> {
    /// Creates a table holding only the built-in `help` flag.
    pub fn build(description: &str) -> (p: Self)
        ensures
            p.spec_description() == description@,
            p.decls().len() == 1,
            is_help_declaration(p.decls()[0]),
    {
        let mut args: Vec<Declaration<ArgType, F>> = Vec::new();
        args.push(
            Declaration {
                id: "help".to_owned(),
                names: Names { long: "--help".to_owned(), short: "-h".to_owned() },
                description: "display help information".to_owned(),
                accept: None,
                default: None,
            },
        );
        Parser { description: description.to_owned(), args, errors: core::marker::PhantomData }
    }

    /// Appends a valued declaration with converter `accept` and no default.
    pub fn arg(&mut self, long_name: &str, short_name: &str, description: &str, accept: F)
        ensures
            final(self).spec_description() == old(self).spec_description(),
            final(self).decls().len() == old(self).decls().len() + 1,
            final(self).decls().drop_last() =~= old(self).decls(),
            declares_option(final(self).decls().last(), long_name@, short_name@, description@),
            final(self).decls().last().accept == Some(accept),
            final(self).decls().last().default is None,
    {
        let names = make_names(long_name, short_name);
        self.args.push(
            Declaration {
                id: long_name.to_owned(),
                names,
                description: description.to_owned(),
                accept: Some(accept),
                default: None,
            },
        );
    }

    /// Appends a valued declaration whose default is recorded for help
    /// rendering; the parse engine itself never falls back to it.
    pub fn arg_default(
        &mut self,
        long_name: &str,
        short_name: &str,
        description: &str,
        default: ArgType,
        accept: F,
    )
        ensures
            final(self).spec_description() == old(self).spec_description(),
            final(self).decls().len() == old(self).decls().len() + 1,
            final(self).decls().drop_last() =~= old(self).decls(),
            declares_option(final(self).decls().last(), long_name@, short_name@, description@),
            final(self).decls().last().accept == Some(accept),
            final(self).decls().last().default == Some(Value::Value(default)),
    {
        let names = make_names(long_name, short_name);
        self.args.push(
            Declaration {
                id: long_name.to_owned(),
                names,
                description: description.to_owned(),
                accept: Some(accept),
                default: Some(Value::Value(default)),
            },
        );
    }

    /// Appends a flag declaration; the default is recorded for help
    /// rendering only.
    pub fn flag(&mut self, long_name: &str, short_name: &str, description: &str, default: bool)
        ensures
            final(self).spec_description() == old(self).spec_description(),
            final(self).decls().len() == old(self).decls().len() + 1,
            final(self).decls().drop_last() =~= old(self).decls(),
            declares_option(final(self).decls().last(), long_name@, short_name@, description@),
            final(self).decls().last().accept is None,
            final(self).decls().last().default == Some(Value::<ArgType>::Flag(default)),
    {
        let names = make_names(long_name, short_name);
        self.args.push(
            Declaration {
                id: long_name.to_owned(),
                names,
                description: description.to_owned(),
                accept: None,
                default: Some(Value::Flag(default)),
            },
        );
    }

    /// Parses `tokens` against the declaration table.
    ///
    /// A single token is resolved as a bare flag lookup. Otherwise tokens
    /// are scanned left to right: a matched valued declaration converts the
    /// following token (or the sentinel empty string at the end of the
    /// input), a matched flag resolves to `Flag(true)`, and the first
    /// unrecognized token or converter failure ends the parse with the
    /// corresponding error.
    pub fn parse(&self, tokens: &Vec<String>) -> (r: Result<
        ValueMap<ArgType>,
        ArgumentError<ErrType>,
    >)
        requires
            forall|k: int, s: String|
                0 <= k < self.decls().len() ==> #[trigger] converter_callable_on(
                    self.decls()[k],
                    s,
                ),
        ensures
            parse_post(self.decls(), tokens@, r),
    {
        let ghost decls = self.decls();
        let ghost toks = tokens@;
        let n = tokens.len();
        if n == 0 {
            return Err(ArgumentError::UnrecognizedArgument(String::new()));
        }
        if n == 1 {
            let first = &tokens[0];
            match self.find_flag_match(first) {
                Some(d) => {
                    let mut res = ValueMap::new();
                    res.insert(self.args[d].id.clone(), Value::Flag(true));
                    return Ok(res);
                },
                None => {
                    return Err(ArgumentError::UnrecognizedArgument(first.clone()));
                },
            }
        }
        let mut res = ValueMap::new();
        let mut i: usize = 0;
        let ghost mut steps_done: Seq<ScanStep> = Seq::empty();
        let ghost mut vals_done: Seq<Value<ArgType>> = Seq::empty();
        while i < n
            invariant
                forall|k: int, s: String|
                    0 <= k < decls.len() ==> #[trigger] converter_callable_on(decls[k], s),
                decls == self.decls(),
                toks == tokens@,
                n == toks.len(),
                2 <= n,
                i <= n,
                scan_from(decls, toks, 0).steps == steps_done + scan_from(
                    decls,
                    toks,
                    i as int,
                ).steps,
                scan_from(decls, toks, 0).unrecognized_at == scan_from(
                    decls,
                    toks,
                    i as int,
                ).unrecognized_at,
                vals_consistent(decls, toks, steps_done, vals_done),
                res@ == steps_map(decls, steps_done, vals_done),
            decreases n - i,
        {
            let current = &tokens[i];
            match self.find_match(current) {
                None => {
                    proof {
                        assert(scan_from(decls, toks, i as int).unrecognized_at == Some(i as int));
                        assert(scan_from(decls, toks, i as int).steps =~= Seq::<ScanStep>::empty());
                        assert(scan_from(decls, toks, 0).steps =~= steps_done);
                        assert(vals_consistent(
                            decls,
                            toks,
                            scan_from(decls, toks, 0).steps,
                            vals_done,
                        ));
                    }
                    return Err(ArgumentError::UnrecognizedArgument(current.clone()));
                },
                Some(d) => {
                    let ghost prev_steps = steps_done;
                    let ghost prev_vals = vals_done;
                    let ghost prev_map = res@;
                    match &self.args[d].accept {
                        Some(f) => {
                            let next: String = if i + 1 < n {
                                tokens[i + 1].clone()
                            } else {
                                String::new()
                            };
                            let ghost gnext = next;
                            proof {
                                assert(converter_callable_on(decls[d as int], gnext));
                                assert(decls[d as int].accept == Some(*f));
                            }
                            let conv = f(next);
                            let ghost gconv = conv;
                            let ghost step = ScanStep::Valued {
                                decl: d as int,
                                value_at: i as int + 1,
                            };
                            proof {
                                assert(scan_from(decls, toks, i as int).steps[0] == step);
                                assert(call_ensures(decls[d as int].accept->0, (gnext,), gconv));
                                if i as int + 1 < toks.len() {
                                    assert(toks[i as int + 1] == gnext);
                                }
                            }
                            match conv {
                                Ok(v) => {
                                    let value = Value::Value(v);
                                    let ghost gvalue = value;
                                    res.insert(self.args[d].id.clone(), value);
                                    proof {
                                        assert(gconv == Ok::<ArgType, ErrType>(gvalue->Value_0));
                                        assert(converter_accepts(
                                            decls[d as int].accept->0,
                                            toks,
                                            i as int + 1,
                                            gvalue->Value_0,
                                        ));
                                        assert(gvalue == Value::<ArgType>::Value(
                                            gvalue->Value_0,
                                        ));
                                        assert((d as int) < decls.len());
                                        assert(decls[d as int].accept is Some);
                                        assert(converter_accepts(
                                            decls[step->Valued_decl].accept->0,
                                            toks,
                                            step->Valued_value_at,
                                            gvalue->Value_0,
                                        ));
                                        assert(step_ok(decls, toks, step, gvalue));
                                        steps_done = steps_done.push(step);
                                        vals_done = vals_done.push(gvalue);
                                        assert(steps_done.drop_last() =~= prev_steps);
                                        assert(vals_done.drop_last() =~= prev_vals);
                                        assert(res@ == steps_map(decls, steps_done, vals_done));
                                        assert forall|j: int|
                                            0 <= j < steps_done.len() implies step_ok(
                                            decls,
                                            toks,
                                            #[trigger] steps_done[j],
                                            vals_done[j],
                                        ) by {
                                            if j < prev_steps.len() {
                                                assert(step_ok(
                                                    decls,
                                                    toks,
                                                    prev_steps[j],
                                                    prev_vals[j],
                                                ));
                                            }
                                        }
                                        if i as int + 2 <= toks.len() {
                                            assert(scan_from(decls, toks, i as int).steps
                                                =~= seq![step] + scan_from(
                                                decls,
                                                toks,
                                                i as int + 2,
                                            ).steps);
                                            assert(scan_from(decls, toks, 0).steps =~= steps_done
                                                + scan_from(decls, toks, i as int + 2).steps);
                                        } else {
                                            assert(scan_from(decls, toks, i as int).steps
                                                =~= seq![step]);
                                            assert(scan_from(decls, toks, 0).steps =~= steps_done
                                                + scan_from(decls, toks, n as int).steps);
                                        }
                                    }
                                    if i + 1 < n {
                                        i = i + 2;
                                    } else {
                                        i = n;
                                    }
                                },
                                Err(e) => {
                                    proof {
                                        let outcome = scan_from(decls, toks, 0);
                                        let j = prev_steps.len() as int;
                                        assert(outcome.steps[j] == step);
                                        assert(outcome.steps.take(j) =~= prev_steps);
                                        assert(gconv == Err::<ArgType, ErrType>(e));
                                        assert(converter_rejects(
                                            decls[d as int].accept->0,
                                            toks,
                                            i as int + 1,
                                            e,
                                        ));
                                        assert(!scan_converters_total::<ArgType, ErrType, F>(
                                            decls,
                                            toks,
                                            outcome.steps,
                                        )) by {
                                            if scan_converters_total::<ArgType, ErrType, F>(
                                                decls,
                                                toks,
                                                outcome.steps,
                                            ) {
                                                assert(outcome.steps[j] matches ScanStep::Valued {
                                                    ..
                                                });
                                                assert(converter_total::<ArgType, ErrType, F>(
                                                    decls[d as int].accept->0,
                                                    toks,
                                                    i as int + 1,
                                                ));
                                                if i as int + 1 < toks.len() {
                                                    assert(toks[i as int + 1] == gnext);
                                                }
                                                assert(call_ensures(
                                                    decls[d as int].accept->0,
                                                    (gnext,),
                                                    Err::<ArgType, ErrType>(e),
                                                ));
                                                assert(false);
                                            }
                                        }
                                    }
                                    return Err(ArgumentError::AcceptanceError(e));
                                },
                            }
                        },
                        None => {
                            res.insert(self.args[d].id.clone(), Value::Flag(true));
                            proof {
                                let step = ScanStep::Flag { decl: d as int };
                                assert(scan_from(decls, toks, i as int).steps =~= seq![step]
                                    + scan_from(decls, toks, i as int + 1).steps);
                                steps_done = steps_done.push(step);
                                vals_done = vals_done.push(Value::<ArgType>::Flag(true));
                                assert(steps_done.drop_last() =~= prev_steps);
                                assert(vals_done.drop_last() =~= prev_vals);
                                assert(res@ == steps_map(decls, steps_done, vals_done));
                                assert forall|j: int|
                                    0 <= j < steps_done.len() implies step_ok(
                                    decls,
                                    toks,
                                    #[trigger] steps_done[j],
                                    vals_done[j],
                                ) by {
                                    if j < prev_steps.len() {
                                        assert(step_ok(decls, toks, prev_steps[j], prev_vals[j]));
                                    }
                                }
                                assert(scan_from(decls, toks, 0).steps =~= steps_done + scan_from(
                                    decls,
                                    toks,
                                    i as int + 1,
                                ).steps);
                            }
                            i = i + 1;
                        },
                    }
                },
            }
        }
        proof {
            let outcome = scan_from(decls, toks, 0);
            assert(scan_from(decls, toks, n as int).steps =~= Seq::<ScanStep>::empty());
            assert(outcome.steps =~= steps_done);
            assert(vals_consistent(decls, toks, outcome.steps, vals_done) && res@ == steps_map(
                decls,
                outcome.steps,
                vals_done,
            ));
        }
        Ok(res)
    }

    fn find_match(&self, token: &String) -> (r: Option<usize>)
        ensures
            match r {
                Some(d) => d < self.decls().len() && first_match(self.decls(), token@) == Some(
                    d as int,
                ),
                None => first_match(self.decls(), token@) is None,
            },
    {
        let n = self.args.len();
        let mut i: usize = 0;
        while i < n
            invariant
                n == self.decls().len(),
                i <= n,
                first_match(self.decls(), token@) == first_match_from(self.decls(), token@, i as int),
            decreases n - i,
        {
            if self.args[i].names.long == *token || self.args[i].names.short == *token {
                proof {
                    assert(decl_matches(self.decls()[i as int], token@));
                }
                return Some(i);
            }
            proof {
                assert(first_match_from(self.decls(), token@, i as int) == first_match_from(
                    self.decls(),
                    token@,
                    i as int + 1,
                ));
            }
            i = i + 1;
        }
        None
    }

    fn find_flag_match(&self, token: &String) -> (r: Option<usize>)
        ensures
            match r {
                Some(d) => d < self.decls().len() && flag_matches(self.decls()[d as int], token@)
                    && first_flag_match(self.decls(), token@) == Some(d as int),
                None => first_flag_match(self.decls(), token@) is None,
            },
    {
        let n = self.args.len();
        let mut i: usize = 0;
        while i < n
            invariant
                n == self.decls().len(),
                i <= n,
                first_flag_match(self.decls(), token@) == first_flag_match_from(
                    self.decls(),
                    token@,
                    i as int,
                ),
            decreases n - i,
        {
            if (self.args[i].names.long == *token || self.args[i].names.short == *token)
                && self.args[i].accept.is_none() {
                proof {
                    assert(flag_matches(self.decls()[i as int], token@));
                }
                return Some(i);
            }
            proof {
                assert(first_flag_match_from(self.decls(), token@, i as int)
                    == first_flag_match_from(self.decls(), token@, i as int + 1));
            }
            i = i + 1;
        }
        None
    }
}

proof fn lemma_first_match_from_bounds<A, F>(decls: Seq<Declaration<A, F>>, token: Seq<char>, i: int)
    ensures
        first_match_from(decls, token, i) matches Some(d) ==> i <= d < decls.len()
            && decl_matches(decls[d], token),
    decreases decls.len() - i,
{
    if 0 <= i < decls.len() && !decl_matches(decls[i], token) {
        lemma_first_match_from_bounds(decls, token, i + 1);
    }
}

/// Every step of the scan names a declaration of the table, and a valued
/// step names a declaration holding a converter.
proof fn lemma_scan_from_steps_wf<A, F>(decls: Seq<Declaration<A, F>>, toks: Seq<String>, i: int)
    ensures
        forall|j: int|
            #![trigger scan_from(decls, toks, i).steps[j]]
            0 <= j < scan_from(decls, toks, i).steps.len() ==> {
                let s = scan_from(decls, toks, i).steps[j];
                &&& 0 <= step_decl(s) < decls.len()
                &&& (s matches ScanStep::Valued { decl, value_at } ==> decls[decl].accept is Some)
            },
    decreases toks.len() - i,
{
    if 0 <= i < toks.len() {
        lemma_first_match_from_bounds(decls, toks[i]@, 0);
        match first_match(decls, toks[i]@) {
            None => {
            },
            Some(d) => {
                if decls[d].accept is Some {
                    if i + 2 <= toks.len() {
                        lemma_scan_from_steps_wf(decls, toks, i + 2);
                    }
                } else {
                    lemma_scan_from_steps_wf(decls, toks, i + 1);
                }
            },
        }
    }
}

proof fn lemma_first_match_from_is<A, F>(
    decls: Seq<Declaration<A, F>>,
    token: Seq<char>,
    i: int,
    d: int,
)
    requires
        0 <= i <= d < decls.len(),
        decl_matches(decls[d], token),
        forall|j: int| i <= j < d ==> !decl_matches(decls[j], token),
    ensures
        first_match_from(decls, token, i) == Some(d),
    decreases d - i,
{
    if i < d {
        lemma_first_match_from_is(decls, token, i + 1, d);
    }
}

proof fn lemma_first_flag_match_from_is<A, F>(
    decls: Seq<Declaration<A, F>>,
    token: Seq<char>,
    i: int,
    d: int,
)
    requires
        0 <= i <= d < decls.len(),
        flag_matches(decls[d], token),
        forall|j: int| i <= j < d ==> !flag_matches(decls[j], token),
    ensures
        first_flag_match_from(decls, token, i) == Some(d),
    decreases d - i,
{
    if i < d {
        lemma_first_flag_match_from_is(decls, token, i + 1, d);
    }
}

/// Law: an empty token list always parses to `UnrecognizedArgument` of the
/// empty token.
pub proof fn lemma_parse_empty<A, E, F: Fn(String) -> Result<A, E>>(
    decls: Seq<Declaration<A, F>>,
    toks: Seq<String>,
    r: Result<ValueMap<A>, ArgumentError<E>>,
)
    requires
        parse_post(decls, toks, r),
        toks.len() == 0,
    ensures
        r matches Err(ArgumentError::UnrecognizedArgument(u)) && u@ == Seq::<char>::empty(),
{
}

/// Law: a single token naming a flag declaration, with no earlier
/// declaration also naming it as a flag, parses to a mapping holding
/// exactly that flag's identifier, set true.
pub proof fn lemma_parse_single_flag<A, E, F: Fn(String) -> Result<A, E>>(
    decls: Seq<Declaration<A, F>>,
    toks: Seq<String>,
    d: int,
    r: Result<ValueMap<A>, ArgumentError<E>>,
)
    requires
        parse_post(decls, toks, r),
        toks.len() == 1,
        0 <= d < decls.len(),
        flag_matches(decls[d], toks[0]@),
        forall|j: int| 0 <= j < d ==> !flag_matches(decls[j], toks[0]@),
    ensures
        r matches Ok(m) && m@ == Map::<Seq<char>, Value<A>>::empty().insert(
            decls[d].id@,
            Value::Flag(true),
        ),
{
    lemma_first_flag_match_from_is(decls, toks[0]@, 0, d);
}

/// Law: a single token that no declaration names as a flag — in
/// particular any token naming only valued declarations, and any token
/// naming nothing — parses to `UnrecognizedArgument` of that token.
pub proof fn lemma_parse_single_unrecognized<A, E, F: Fn(String) -> Result<A, E>>(
    decls: Seq<Declaration<A, F>>,
    toks: Seq<String>,
    r: Result<ValueMap<A>, ArgumentError<E>>,
)
    requires
        parse_post(decls, toks, r),
        toks.len() == 1,
        forall|j: int| 0 <= j < decls.len() ==> !flag_matches(decls[j], toks[0]@),
    ensures
        r == Err::<ValueMap<A>, ArgumentError<E>>(ArgumentError::UnrecognizedArgument(toks[0])),
{
    lemma_first_flag_match_from_none(decls, toks[0]@, 0);
}

proof fn lemma_first_flag_match_from_none<A, F>(
    decls: Seq<Declaration<A, F>>,
    token: Seq<char>,
    i: int,
)
    requires
        forall|j: int| 0 <= j < decls.len() ==> !flag_matches(decls[j], token),
        i >= 0,
    ensures
        first_flag_match_from(decls, token, i) is None,
    decreases decls.len() - i,
{
    if i < decls.len() {
        lemma_first_flag_match_from_none(decls, token, i + 1);
    }
}

/// Law: when the first token names no declaration, the parse of two or
/// more tokens fails with `UnrecognizedArgument` naming exactly that
/// token, whatever tokens follow it.
pub proof fn lemma_parse_unrecognized_first<A, E, F: Fn(String) -> Result<A, E>>(
    decls: Seq<Declaration<A, F>>,
    toks: Seq<String>,
    r: Result<ValueMap<A>, ArgumentError<E>>,
)
    requires
        parse_post(decls, toks, r),
        toks.len() >= 2,
        first_match(decls, toks[0]@) is None,
    ensures
        r == Err::<ValueMap<A>, ArgumentError<E>>(ArgumentError::UnrecognizedArgument(toks[0])),
{
    let outcome = scan_from(decls, toks, 0);
    assert(outcome.unrecognized_at == Some(0int));
    assert(outcome.steps =~= Seq::<ScanStep>::empty());
    assert(scan_converters_total::<A, E, F>(decls, toks, outcome.steps));
}

/// Law: two tokens whose first names a valued declaration (with no
/// earlier declaration matching) parse to that declaration's identifier
/// bound to a converter outcome on the second token: a success gives the
/// single-entry mapping, a failure gives `AcceptanceError` carrying the
/// converter's error, and a converter that cannot fail makes the parse
/// succeed.
pub proof fn lemma_parse_valued_pair<A, E, F: Fn(String) -> Result<A, E>>(
    decls: Seq<Declaration<A, F>>,
    toks: Seq<String>,
    d: int,
    r: Result<ValueMap<A>, ArgumentError<E>>,
)
    requires
        parse_post(decls, toks, r),
        toks.len() == 2,
        0 <= d < decls.len(),
        decl_matches(decls[d], toks[0]@),
        decls[d].accept is Some,
        forall|j: int| 0 <= j < d ==> !decl_matches(decls[j], toks[0]@),
    ensures
        r matches Ok(m) ==> (exists|v: A|
            call_ensures(decls[d].accept->0, (toks[1],), Ok::<A, E>(v)) && m@ == Map::<
                Seq<char>,
                Value<A>,
            >::empty().insert(decls[d].id@, Value::Value(v))),
        r matches Err(e) ==> (e matches ArgumentError::AcceptanceError(err) && call_ensures(
            decls[d].accept->0,
            (toks[1],),
            Err::<A, E>(err),
        )),
        (forall|ret: Result<A, E>|
            call_ensures(decls[d].accept->0, (toks[1],), ret) ==> ret is Ok) ==> r is Ok,
{
    lemma_first_match_from_is(decls, toks[0]@, 0, d);
    let outcome = scan_from(decls, toks, 0);
    let step = ScanStep::Valued { decl: d, value_at: 1 };
    assert(scan_from(decls, toks, 2).steps =~= Seq::<ScanStep>::empty());
    assert(outcome.steps =~= seq![step]);
    assert(outcome.unrecognized_at is None);
    match r {
        Ok(m) => {
            let vals = choose|vals: Seq<Value<A>>|
                vals_consistent(decls, toks, outcome.steps, vals) && m@ == steps_map(
                    decls,
                    outcome.steps,
                    vals,
                );
            assert(step_ok(decls, toks, outcome.steps[0], vals[0]));
            let v = choose|v: A|
                vals[0] == Value::<A>::Value(v) && converter_accepts(
                    decls[d].accept->0,
                    toks,
                    1,
                    v,
                );
            assert(outcome.steps.drop_last() =~= Seq::<ScanStep>::empty());
            assert(vals.len() == 1);
            assert(vals.last() == vals[0]);
            assert(vals.drop_last() =~= Seq::<Value<A>>::empty());
            assert(outcome.steps.last() == step);
            assert(steps_map(decls, outcome.steps.drop_last(), vals.drop_last()) =~= Map::<
                Seq<char>,
                Value<A>,
            >::empty());
            assert(m@ == Map::<Seq<char>, Value<A>>::empty().insert(
                decls[d].id@,
                Value::Value(v),
            ));
            assert(call_ensures(decls[d].accept->0, (toks[1],), Ok::<A, E>(v)));
        },
        Err(e) => {
            match e {
                ArgumentError::UnrecognizedArgument(_) => {
                    assert(false);
                },
                ArgumentError::AcceptanceError(err) => {
                    let j = choose|j: int|
                        #![trigger outcome.steps[j]]
                        {
                            &&& 0 <= j < outcome.steps.len()
                            &&& (exists|vals: Seq<Value<A>>|
                                vals_consistent(decls, toks, outcome.steps.take(j), vals))
                            &&& outcome.steps[j] matches ScanStep::Valued { decl, value_at }
                                && converter_rejects(decls[decl].accept->0, toks, value_at, err)
                        };
                    assert(outcome.steps[j] == step);
                    assert(converter_rejects(decls[d].accept->0, toks, 1, err));
                },
            }
        },
    }
    if forall|ret: Result<A, E>| call_ensures(decls[d].accept->0, (toks[1],), ret) ==> ret is Ok {
        assert(converter_total::<A, E, F>(decls[d].accept->0, toks, 1));
        assert forall|j: int|
            0 <= j < outcome.steps.len() implies (#[trigger] outcome.steps[j] matches
        ScanStep::Valued { decl, value_at } ==> converter_total::<A, E, F>(
            decls[decl].accept->0,
            toks,
            value_at,
        )) by {
            assert(outcome.steps[j] == step);
        }
        assert(scan_converters_total::<A, E, F>(decls, toks, outcome.steps));
    }
}

/// Law: when the scan recognizes every token but some scanned valued
/// step's converter can accept no outcome for its consumed token, the
/// parse fails with `AcceptanceError`; no mapping is returned beside the
/// error.
pub proof fn lemma_parse_converter_error<A, E, F: Fn(String) -> Result<A, E>>(
    decls: Seq<Declaration<A, F>>,
    toks: Seq<String>,
    dd: int,
    at: int,
    j: int,
    r: Result<ValueMap<A>, ArgumentError<E>>,
)
    requires
        parse_post(decls, toks, r),
        toks.len() >= 2,
        scan_from(decls, toks, 0).unrecognized_at is None,
        0 <= j < scan_from(decls, toks, 0).steps.len(),
        scan_from(decls, toks, 0).steps[j] == (ScanStep::Valued { decl: dd, value_at: at }),
        forall|v: A| !converter_accepts(decls[dd].accept->0, toks, at, v),
    ensures
        r matches Err(e) && e is AcceptanceError,
{
    let outcome = scan_from(decls, toks, 0);
    match r {
        Ok(m) => {
            let vals = choose|vals: Seq<Value<A>>|
                vals_consistent(decls, toks, outcome.steps, vals) && m@ == steps_map(
                    decls,
                    outcome.steps,
                    vals,
                );
            assert(step_ok(decls, toks, outcome.steps[j], vals[j]));
            assert(false);
        },
        Err(e) => {
            match e {
                ArgumentError::UnrecognizedArgument(_) => {
                    assert(false);
                },
                ArgumentError::AcceptanceError(_) => {
                },
            }
        },
    }
}

/// Whether the converter returns one fixed outcome for each sequence of
/// characters: any two invocations on tokens with equal characters agree.
pub open spec fn converter_deterministic<A, E, F: Fn(String) -> Result<A, E>>(f: F) -> bool {
    forall|s1: String, s2: String, r1: Result<A, E>, r2: Result<A, E>|
        s1@ == s2@ && #[trigger] call_ensures(f, (s1,), r1) && #[trigger] call_ensures(
            f,
            (s2,),
            r2,
        ) ==> r1 == r2
}

/// Whether two parse results are the same observation: equal mappings,
/// the same unrecognized token, or the same converter error.
pub open spec fn results_agree<A, E>(
    r1: Result<ValueMap<A>, ArgumentError<E>>,
    r2: Result<ValueMap<A>, ArgumentError<E>>,
) -> bool {
    match (r1, r2) {
        (Ok(m1), Ok(m2)) => m1@ == m2@,
        (
            Err(ArgumentError::UnrecognizedArgument(u1)),
            Err(ArgumentError::UnrecognizedArgument(u2)),
        ) => u1@ == u2@,
        (Err(ArgumentError::AcceptanceError(e1)), Err(ArgumentError::AcceptanceError(e2))) => e1
            == e2,
        _ => false,
    }
}

/// Law: parsing is repeatable. The parser holds no hidden state, so two
/// parses of the same token sequence against the same declaration table
/// agree, provided every declared converter is deterministic over the
/// characters of its input.
pub proof fn lemma_parse_deterministic<A, E, F: Fn(String) -> Result<A, E>>(
    decls: Seq<Declaration<A, F>>,
    toks: Seq<String>,
    r1: Result<ValueMap<A>, ArgumentError<E>>,
    r2: Result<ValueMap<A>, ArgumentError<E>>,
)
    requires
        parse_post(decls, toks, r1),
        parse_post(decls, toks, r2),
        forall|k: int|
            0 <= k < decls.len() && (#[trigger] decls[k]).accept is Some
                ==> converter_deterministic(decls[k].accept->0),
    ensures
        results_agree(r1, r2),
{
    if toks.len() == 0 {
    } else if toks.len() == 1 {
    } else {
        let outcome = scan_from(decls, toks, 0);
        match (r1, r2) {
            (Ok(m1), Ok(m2)) => {
                let vals1 = choose|vals: Seq<Value<A>>|
                    vals_consistent(decls, toks, outcome.steps, vals) && m1@ == steps_map(
                        decls,
                        outcome.steps,
                        vals,
                    );
                let vals2 = choose|vals: Seq<Value<A>>|
                    vals_consistent(decls, toks, outcome.steps, vals) && m2@ == steps_map(
                        decls,
                        outcome.steps,
                        vals,
                    );
                lemma_consistent_vals_unique(decls, toks, outcome.steps, vals1, vals2);
                assert(m1@ == m2@);
            },
            (Ok(m1), Err(e2)) => {
                match e2 {
                    ArgumentError::UnrecognizedArgument(_) => {
                    },
                    ArgumentError::AcceptanceError(b2) => {
                        let pvals = choose|vals: Seq<Value<A>>|
                            vals_consistent(decls, toks, outcome.steps, vals) && m1@ == steps_map(
                                decls,
                                outcome.steps,
                                vals,
                            );
                        assert(vals_consistent(decls, toks, outcome.steps, pvals));
                        lemma_full_consistency_excludes_error(
                            decls,
                            toks,
                            ArgumentError::AcceptanceError(b2),
                        );
                    },
                }
            },
            (Err(e1), Ok(m2)) => {
                match e1 {
                    ArgumentError::UnrecognizedArgument(_) => {
                    },
                    ArgumentError::AcceptanceError(b1) => {
                        let pvals = choose|vals: Seq<Value<A>>|
                            vals_consistent(decls, toks, outcome.steps, vals) && m2@ == steps_map(
                                decls,
                                outcome.steps,
                                vals,
                            );
                        assert(vals_consistent(decls, toks, outcome.steps, pvals));
                        lemma_full_consistency_excludes_error(
                            decls,
                            toks,
                            ArgumentError::AcceptanceError(b1),
                        );
                    },
                }
            },
            (Err(e1), Err(e2)) => {
                match (e1, e2) {
                    (
                        ArgumentError::UnrecognizedArgument(u1),
                        ArgumentError::UnrecognizedArgument(u2),
                    ) => {
                        assert(u1 == u2);
                    },
                    (ArgumentError::UnrecognizedArgument(_), ArgumentError::AcceptanceError(b2)) => {
                        lemma_full_consistency_excludes_error(
                            decls,
                            toks,
                            ArgumentError::AcceptanceError(b2),
                        );
                    },
                    (ArgumentError::AcceptanceError(b1), ArgumentError::UnrecognizedArgument(_)) => {
                        lemma_full_consistency_excludes_error(
                            decls,
                            toks,
                            ArgumentError::AcceptanceError(b1),
                        );
                    },
                    (ArgumentError::AcceptanceError(b1), ArgumentError::AcceptanceError(b2)) => {
                        lemma_acc_acc_agree(decls, toks, b1, b2);
                    },
                }
            },
        }
    }
}

/// Under deterministic converters, a run that resolved every scanned step
/// rules out any run that rejected one of them: helper for the
/// repeatability law.
proof fn lemma_full_consistency_excludes_error<A, E, F: Fn(String) -> Result<A, E>>(
    decls: Seq<Declaration<A, F>>,
    toks: Seq<String>,
    e: ArgumentError<E>,
)
    requires
        forall|k: int|
            0 <= k < decls.len() && (#[trigger] decls[k]).accept is Some
                ==> converter_deterministic(decls[k].accept->0),
        exists|vals: Seq<Value<A>>|
            vals_consistent(decls, toks, scan_from(decls, toks, 0).steps, vals),
    ensures
        e matches ArgumentError::AcceptanceError(err)
            ==> !general_post::<A, E, F>(decls, toks, Err(ArgumentError::AcceptanceError(err))),
{
    let outcome = scan_from(decls, toks, 0);
    let vals = choose|vals: Seq<Value<A>>| vals_consistent(decls, toks, outcome.steps, vals);
    match e {
        ArgumentError::UnrecognizedArgument(_) => {
        },
        ArgumentError::AcceptanceError(err) => {
            if general_post::<A, E, F>(decls, toks, Err(ArgumentError::AcceptanceError(err))) {
                let j = choose|j: int|
                    #![trigger outcome.steps[j]]
                    {
                        &&& 0 <= j < outcome.steps.len()
                        &&& (exists|vals0: Seq<Value<A>>|
                            vals_consistent(decls, toks, outcome.steps.take(j), vals0))
                        &&& outcome.steps[j] matches ScanStep::Valued { decl, value_at }
                            && converter_rejects(decls[decl].accept->0, toks, value_at, err)
                    };
                assert(step_ok(decls, toks, outcome.steps[j], vals[j]));
                let dd = step_decl(outcome.steps[j]);
                let at = outcome.steps[j]->Valued_value_at;
                let v = choose|v: A|
                    vals[j] == Value::<A>::Value(v) && converter_accepts(
                        decls[dd].accept->0,
                        toks,
                        at,
                        v,
                    );
                lemma_accept_excludes_reject(decls, toks, dd, at, v, err);
                assert(false);
            }
        },
    }
}

/// Two converter outcomes for the same step agree when converters are
/// deterministic: helper for the repeatability law.
proof fn lemma_step_outcomes_agree<A, E, F: Fn(String) -> Result<A, E>>(
    decls: Seq<Declaration<A, F>>,
    toks: Seq<String>,
    step: ScanStep,
    val1: Value<A>,
    val2: Value<A>,
)
    requires
        forall|k: int|
            0 <= k < decls.len() && (#[trigger] decls[k]).accept is Some
                ==> converter_deterministic(decls[k].accept->0),
        step_ok(decls, toks, step, val1),
        step_ok(decls, toks, step, val2),
    ensures
        val1 == val2,
{
    match step {
        ScanStep::Flag { .. } => {
        },
        ScanStep::Valued { decl, value_at } => {
            let f = decls[decl].accept->0;
            let v1 = choose|v: A|
                val1 == Value::<A>::Value(v) && converter_accepts(f, toks, value_at, v);
            let v2 = choose|v: A|
                val2 == Value::<A>::Value(v) && converter_accepts(f, toks, value_at, v);
            lemma_accept_outcomes_agree(decls, toks, decl, value_at, v1, v2);
        },
    }
}

proof fn lemma_accept_outcomes_agree<A, E, F: Fn(String) -> Result<A, E>>(
    decls: Seq<Declaration<A, F>>,
    toks: Seq<String>,
    decl: int,
    value_at: int,
    v1: A,
    v2: A,
)
    requires
        0 <= decl < decls.len(),
        decls[decl].accept is Some,
        converter_deterministic(decls[decl].accept->0),
        converter_accepts(decls[decl].accept->0, toks, value_at, v1),
        converter_accepts(decls[decl].accept->0, toks, value_at, v2),
    ensures
        v1 == v2,
{
    let f = decls[decl].accept->0;
    if 0 <= value_at < toks.len() {
        assert(Ok::<A, E>(v1) == Ok::<A, E>(v2));
    } else {
        let s1 = choose|s: String|
            s@ == Seq::<char>::empty() && call_ensures(f, (s,), Ok::<A, E>(v1));
        let s2 = choose|s: String|
            s@ == Seq::<char>::empty() && call_ensures(f, (s,), Ok::<A, E>(v2));
        assert(Ok::<A, E>(v1) == Ok::<A, E>(v2));
    }
}

/// A deterministic converter that can accept the consumed token cannot
/// also reject it.
proof fn lemma_accept_excludes_reject<A, E, F: Fn(String) -> Result<A, E>>(
    decls: Seq<Declaration<A, F>>,
    toks: Seq<String>,
    decl: int,
    value_at: int,
    v: A,
    e: E,
)
    requires
        0 <= decl < decls.len(),
        decls[decl].accept is Some,
        converter_deterministic(decls[decl].accept->0),
        converter_accepts(decls[decl].accept->0, toks, value_at, v),
    ensures
        !converter_rejects(decls[decl].accept->0, toks, value_at, e),
{
    let f = decls[decl].accept->0;
    if converter_rejects(f, toks, value_at, e) {
        if 0 <= value_at < toks.len() {
            assert(Ok::<A, E>(v) == Err::<A, E>(e));
        } else {
            let s1 = choose|s: String|
                s@ == Seq::<char>::empty() && call_ensures(f, (s,), Ok::<A, E>(v));
            let s2 = choose|s: String|
                s@ == Seq::<char>::empty() && call_ensures(f, (s,), Err::<A, E>(e));
            assert(Ok::<A, E>(v) == Err::<A, E>(e));
        }
    }
}

proof fn lemma_consistent_vals_unique<A, E, F: Fn(String) -> Result<A, E>>(
    decls: Seq<Declaration<A, F>>,
    toks: Seq<String>,
    steps: Seq<ScanStep>,
    vals1: Seq<Value<A>>,
    vals2: Seq<Value<A>>,
)
    requires
        forall|k: int|
            0 <= k < decls.len() && (#[trigger] decls[k]).accept is Some
                ==> converter_deterministic(decls[k].accept->0),
        vals_consistent(decls, toks, steps, vals1),
        vals_consistent(decls, toks, steps, vals2),
    ensures
        vals1 == vals2,
{
    assert forall|j: int| 0 <= j < steps.len() implies vals1[j] == vals2[j] by {
        assert(step_ok(decls, toks, steps[j], vals1[j]));
        assert(step_ok(decls, toks, steps[j], vals2[j]));
        lemma_step_outcomes_agree(decls, toks, steps[j], vals1[j], vals2[j]);
    }
    assert(vals1 =~= vals2);
}

proof fn lemma_acc_acc_agree<A, E, F: Fn(String) -> Result<A, E>>(
    decls: Seq<Declaration<A, F>>,
    toks: Seq<String>,
    b1: E,
    b2: E,
)
    requires
        toks.len() >= 2,
        forall|k: int|
            0 <= k < decls.len() && (#[trigger] decls[k]).accept is Some
                ==> converter_deterministic(decls[k].accept->0),
        general_post::<A, E, F>(decls, toks, Err(ArgumentError::AcceptanceError(b1))),
        general_post::<A, E, F>(decls, toks, Err(ArgumentError::AcceptanceError(b2))),
    ensures
        b1 == b2,
{
    let outcome = scan_from(decls, toks, 0);
    let j1 = choose|j: int|
        #![trigger outcome.steps[j]]
        {
            &&& 0 <= j < outcome.steps.len()
            &&& (exists|vals0: Seq<Value<A>>|
                vals_consistent(decls, toks, outcome.steps.take(j), vals0))
            &&& outcome.steps[j] matches ScanStep::Valued { decl, value_at }
                && converter_rejects(decls[decl].accept->0, toks, value_at, b1)
        };
    let j2 = choose|j: int|
        #![trigger outcome.steps[j]]
        {
            &&& 0 <= j < outcome.steps.len()
            &&& (exists|vals0: Seq<Value<A>>|
                vals_consistent(decls, toks, outcome.steps.take(j), vals0))
            &&& outcome.steps[j] matches ScanStep::Valued { decl, value_at }
                && converter_rejects(decls[decl].accept->0, toks, value_at, b2)
        };
    lemma_scan_from_steps_wf(decls, toks, 0);
    if j1 == j2 {
        let dd = step_decl(outcome.steps[j1]);
        let at = outcome.steps[j1]->Valued_value_at;
        assert(0 <= step_decl(outcome.steps[j1]) < decls.len());
        lemma_reject_outcomes_agree(decls, toks, dd, at, b1, b2);
    } else {
        // the earlier run's rejecting step sits inside the later run's
        // consistent prefix, which a deterministic converter rules out
        let ja = if j1 < j2 {
            j1
        } else {
            j2
        };
        let jb = if j1 < j2 {
            j2
        } else {
            j1
        };
        let ba = if j1 < j2 {
            b1
        } else {
            b2
        };
        let vals = choose|vals0: Seq<Value<A>>|
            vals_consistent(decls, toks, outcome.steps.take(jb), vals0);
        assert(outcome.steps.take(jb)[ja] == outcome.steps[ja]);
        assert(step_ok(decls, toks, outcome.steps[ja], vals[ja]));
        let dd = step_decl(outcome.steps[ja]);
        let at = outcome.steps[ja]->Valued_value_at;
        let v = choose|v: A|
            vals[ja] == Value::<A>::Value(v) && converter_accepts(
                decls[dd].accept->0,
                toks,
                at,
                v,
            );
        lemma_accept_excludes_reject(decls, toks, dd, at, v, ba);
        assert(false);
    }
}

proof fn lemma_reject_outcomes_agree<A, E, F: Fn(String) -> Result<A, E>>(
    decls: Seq<Declaration<A, F>>,
    toks: Seq<String>,
    decl: int,
    value_at: int,
    e1: E,
    e2: E,
)
    requires
        0 <= decl < decls.len(),
        decls[decl].accept is Some,
        converter_deterministic(decls[decl].accept->0),
        converter_rejects(decls[decl].accept->0, toks, value_at, e1),
        converter_rejects(decls[decl].accept->0, toks, value_at, e2),
    ensures
        e1 == e2,
{
    let f = decls[decl].accept->0;
    if 0 <= value_at < toks.len() {
        assert(Err::<A, E>(e1) == Err::<A, E>(e2));
    } else {
        let s1 = choose|s: String|
            s@ == Seq::<char>::empty() && call_ensures(f, (s,), Err::<A, E>(e1));
        let s2 = choose|s: String|
            s@ == Seq::<char>::empty() && call_ensures(f, (s,), Err::<A, E>(e2));
        assert(Err::<A, E>(e1) == Err::<A, E>(e2));
    }
}


} // verus!
