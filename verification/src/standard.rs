//! The standard definitions, from booleans to the Fibonacci numbers, and the text of
//! the query that computes one of them.

use crate::combinator::{eliminate, Combinator, Definition};
use crate::context::{loose_symbols, registered, substitute, term_valid, CombinatorContext};
use crate::elimination::{with_body, AbstractionElimination};
use crate::error::CombinatorError;
use crate::parse::{lemma_parsed_definition_eliminates, parse_definition, slice_names};
use vstd::prelude::*;
use vstd::string::StringExecFns;

verus! {

/// The definition that a declaration stands for in a context: the text is read, its
/// parameters are eliminated, the names that the context defines are substituted, and
/// the result must be valid for a loose registration. The elimination has a result on
/// whatever the grammar reads, so that a declaration fails only where the text is
/// malformed or the result uses a name that is neither a primitive nor defined.
pub open spec fn declared(definitions: Seq<Definition>, source: Seq<char>) -> Result<
    Definition,
    CombinatorError,
> {
    match parse_definition(source) {
        None => Err(CombinatorError::Parse),
        Some(parsed) => {
            let point_free = eliminate(parsed)->0;
            let resolved = with_body(point_free, substitute(point_free.body, definitions));
            if term_valid(resolved.body, loose_symbols()) {
                Ok(resolved)
            } else {
                Err(CombinatorError::Rejected)
            }
        },
    }
}

/// Declares the sources one after the other, each in the context that the ones before it
/// have made, up to the first that fails: the definitions at the end, and the failure
/// where there was one.
pub open spec fn declare_all(definitions: Seq<Definition>, sources: Seq<Seq<char>>) -> (
    Seq<Definition>,
    Result<(), CombinatorError>,
)
    decreases sources.len(),
{
    if sources.len() == 0 {
        (definitions, Ok(()))
    } else {
        match declared(definitions, sources[0]) {
            Ok(definition) => declare_all(
                registered(definitions, definition),
                sources.drop_first(),
            ),
            Err(error) => (definitions, Err(error)),
        }
    }
}

/// The declarations of the standard definitions: self-application and the fixed-point
/// combinator, booleans, pairs, numerals with successor and predecessor, iteration,
/// addition, multiplication, and the Fibonacci numbers.
pub open spec fn standard_sources() -> Seq<Seq<char>> {
    seq![
        "M=SII"@,
        "Y=BM(CBM)"@,
        "{True}fg=f"@,
        "{False}fg=g"@,
        "{Not}b=b{False}{True}"@,
        "{Pair}xyb=bxy"@,
        "{First}p=p{True}"@,
        "{Second}p=p{False}"@,
        "{0}=I"@,
        "{IsZero}={First}"@,
        "1={Pair}{False}0"@,
        "{Next}n={Pair}{False}n"@,
        "{Prev}n={Second}n"@,
        "{ApplyPrime}anfx={IsZero}nx(f(a({Prev}n)fx))"@,
        "{Apply}=Y{ApplyPrime}"@,
        "{Add}nm={Apply}n{Next}m"@,
        "{Mult}nm={Apply}n({Add}m)0"@,
        "{NextFibPair}p={Pair}({Second}p)({Add}({First}p)({Second}p))"@,
        "{Fib}n={First}({Apply}n{NextFibPair}({Pair}01))"@,
    ]
}

/// The numeral `n` in source text: `0` under `n` applications of `{Next}`.
pub open spec fn successor_text(n: nat) -> Seq<char>
    decreases n,
{
    if n == 0 {
        "0"@
    } else {
        "{Next}("@ + successor_text((n - 1) as nat) + ")"@
    }
}

/// The source text that asks for the Fibonacci number of `n`, shown by its applications
/// of `f` to `x`. A negative `n` counts as zero.
pub open spec fn number_text(n: int) -> Seq<char> {
    let numeral = successor_text(
        if n > 0 {
            n as nat
        } else {
            0
        },
    );
    "{Apply}("@ + ("{Fib}("@ + numeral + ")"@) + ")fx"@
}

impl CombinatorContext {
    /// Reads a declaration, eliminates its parameters, substitutes the names that the
    /// context defines, and registers the result loosely. The registered definition is
    /// handed back. On a failure the context is left as it was.
    pub fn define(&mut self, source: &str) -> (res: Result<Combinator, CombinatorError>)
        ensures
            match declared(old(self)@, source@) {
                Ok(definition) => res is Ok && res->Ok_0@ == definition && final(self)@
                    == registered(old(self)@, definition),
                Err(error) => res is Err && res->Err_0 == error && final(self)@ == old(self)@,
            },
    {
        let mut combinator = match Combinator::parse(source) {
            Ok(parsed) => parsed,
            Err(error) => {
                return Err(error);
            },
        };
        proof {
            lemma_parsed_definition_eliminates(source@);
        }
        match combinator.abstraction_elimination() {
            Ok(()) => {},
            Err(error) => {
                return Err(error);
            },
        }
        match combinator.context_substitution(&*self) {
            Ok(()) => {},
            Err(error) => {
                return Err(error);
            },
        }
        self.register_loose(combinator)
    }
}

/// Registers the standard definitions, in their order, up to the first that fails.
pub fn prelude(context: &mut CombinatorContext) -> (res: Result<(), CombinatorError>)
    ensures
        final(context)@ == declare_all(old(context)@, standard_sources()).0,
        res == declare_all(old(context)@, standard_sources()).1,
{
    let sources: Vec<&str> = vec![
        "M=SII",
        "Y=BM(CBM)",
        "{True}fg=f",
        "{False}fg=g",
        "{Not}b=b{False}{True}",
        "{Pair}xyb=bxy",
        "{First}p=p{True}",
        "{Second}p=p{False}",
        "{0}=I",
        "{IsZero}={First}",
        "1={Pair}{False}0",
        "{Next}n={Pair}{False}n",
        "{Prev}n={Second}n",
        "{ApplyPrime}anfx={IsZero}nx(f(a({Prev}n)fx))",
        "{Apply}=Y{ApplyPrime}",
        "{Add}nm={Apply}n{Next}m",
        "{Mult}nm={Apply}n({Add}m)0",
        "{NextFibPair}p={Pair}({Second}p)({Add}({First}p)({Second}p))",
        "{Fib}n={First}({Apply}n{NextFibPair}({Pair}01))",
    ];
    assert(slice_names(sources@) =~= standard_sources());
    let mut i: usize = 0;
    assert(standard_sources().subrange(0, 19) =~= standard_sources());
    while i < sources.len()
        invariant
            i <= sources.len(),
            slice_names(sources@) == standard_sources(),
            declare_all(old(context)@, standard_sources()) == declare_all(
                context@,
                standard_sources().subrange(i as int, sources.len() as int),
            ),
        decreases sources.len() - i,
    {
        let ghost rest = standard_sources().subrange(i as int, sources.len() as int);
        assert(rest[0] == sources[i as int]@);
        assert(rest.drop_first() =~= standard_sources().subrange(i + 1, sources.len() as int));
        match context.define(sources[i]) {
            Ok(_) => {},
            Err(error) => {
                return Err(error);
            },
        }
        i += 1;
    }
    Ok(())
}

/// The source text that asks for the Fibonacci number of `n`.
pub fn number_to_string(n: i32) -> (res: String)
    ensures
        res@ == number_text(n as int),
{
    let mut numeral = "0".to_owned();
    let mut i: i32 = 0;
    while i < n
        invariant
            0 <= i,
            i <= n || i == 0,
            numeral@ == successor_text(i as nat),
        decreases n - i,
    {
        let mut wrapped = "{Next}(".to_owned();
        wrapped.append(numeral.as_str());
        wrapped.append(")");
        numeral = wrapped;
        i += 1;
    }
    let mut fib = "{Fib}(".to_owned();
    fib.append(numeral.as_str());
    fib.append(")");
    let mut out = "{Apply}(".to_owned();
    out.append(fib.as_str());
    out.append(")fx");
    assert(out@ =~= number_text(n as int));
    out
}

} // verus!
