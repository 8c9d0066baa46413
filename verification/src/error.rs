//! The ways in which the tree builder gives up on its input.
use crate::syntax::Rule;
use vstd::prelude::*;

verus! {

/// What the builder was looking for when it met a node it could not use.
#[derive(Clone, Copy, Debug, PartialEq, Eq, Structural)]
pub enum Expected {
    /// An identifier, a literal, a call, a nested expression or a prefix
    /// operator.
    Atom,
    /// A binary operator between two operands.
    InfixOperator,
    /// The name of a function or of a variable.
    Name,
    /// The argument list of a call.
    Arguments,
    /// One of the built-in types.
    Type,
    /// A statement.
    Statement,
    /// The declaration inside a variable definition.
    Declaration,
    /// The condition of an `if`.
    Condition,
    /// A block of statements.
    Block,
    /// A top-level declaration.
    TopLevel,
    /// The parameter list of a function definition.
    Parameters,
    /// The return type slot of a function definition.
    ReturnType,
    /// The translation unit itself.
    TransUnit,
}

/// Why no tree was built.
///
/// The grammar engine only lets well-formed input through, so the first two
/// variants report a disagreement between the engine and the builder, not a
/// mistake in the source program.
#[derive(Clone, Copy, Debug, PartialEq, Eq, Structural)]
pub enum ParseError {
    /// A node of kind `found` stood where `expected` was required.
    Unexpected { found: Rule, expected: Expected },
    /// The nodes ran out where `expected` was required.
    Missing { expected: Expected },
    /// The input nests deeper than the limit the caller gave.
    TooDeep,
}

/// The outcome of a builder with the tree replaced by its value.
pub open spec fn outcome<T: View>(r: Result<T, ParseError>) -> Result<T::V, ParseError> {
    match r {
        Ok(t) => Ok(t@),
        Err(e) => Err(e),
    }
}

/// All the values when every element succeeded, else the first failure in
/// sequence order.
pub open spec fn collect<T>(results: Seq<Result<T, ParseError>>) -> Result<Seq<T>, ParseError>
    decreases results.len(),
{
    if results.len() == 0 {
        Ok(Seq::empty())
    } else {
        match collect(results.drop_last()) {
            Err(e) => Err(e),
            Ok(values) => match results.last() {
                Err(e) => Err(e),
                Ok(value) => Ok(values.push(value)),
            },
        }
    }
}

/// A failure among the first `n` results is the failure of the whole.
pub proof fn lemma_collect_fails<T>(results: Seq<Result<T, ParseError>>, n: int, e: ParseError)
    requires
        0 <= n <= results.len(),
        collect(results.take(n)) == Err::<Seq<T>, ParseError>(e),
    ensures
        collect(results) == Err::<Seq<T>, ParseError>(e),
    decreases results.len() - n,
{
    if n < results.len() {
        assert(results.take(n + 1).drop_last() =~= results.take(n));
        lemma_collect_fails(results, n + 1, e);
    } else {
        assert(results.take(n) =~= results);
    }
}

/// One more success extends the collected values by one.
pub proof fn lemma_collect_step<T>(results: Seq<Result<T, ParseError>>, n: int)
    requires
        0 <= n < results.len(),
    ensures
        collect(results.take(n + 1)) == (match collect(results.take(n)) {
            Err(e) => Err(e),
            Ok(values) => match results[n] {
                Err(e) => Err(e),
                Ok(value) => Ok(values.push(value)),
            },
        }),
        collect(results.take(0)) == Ok::<Seq<T>, ParseError>(Seq::empty()),
        collect(results.take(results.len() as int)) == collect(results),
{
    assert(results.take(n + 1).drop_last() =~= results.take(n));
    assert(results.take(results.len() as int) =~= results);
}

/// A collection succeeds exactly when every element does, and then holds
/// the elements' values in the same order.
pub proof fn lemma_collect_ok<T>(results: Seq<Result<T, ParseError>>)
    ensures
        collect(results) matches Ok(values) ==> values.len() == results.len() && forall|i: int|
            0 <= i < results.len() ==> results[i] == Ok::<T, ParseError>(#[trigger] values[i]),
        collect(results) matches Err(e) ==> exists|i: int|
            0 <= i < results.len() && #[trigger] results[i] == Err::<T, ParseError>(e) && forall|j: int|
                0 <= j < i ==> (#[trigger] results[j]) is Ok,
    decreases results.len(),
{
    if results.len() > 0 {
        let front = results.drop_last();
        lemma_collect_ok(front);
        match collect(front) {
            Err(e) => {
                let i = choose|i: int|
                    0 <= i < front.len() && #[trigger] front[i] == Err::<T, ParseError>(e) && forall|j: int|
                        0 <= j < i ==> (#[trigger] front[j]) is Ok;
                assert(results[i] == Err::<T, ParseError>(e));
                assert forall|j: int| 0 <= j < i implies (#[trigger] results[j]) is Ok by {
                    assert(front[j] is Ok);
                }
            },
            Ok(values) => {
                match results.last() {
                    Err(e) => {
                        let i = results.len() - 1;
                        assert(results[i] == Err::<T, ParseError>(e));
                        assert forall|j: int| 0 <= j < i implies (#[trigger] results[j]) is Ok by {
                            assert(front[j] == Ok::<T, ParseError>(values[j]));
                        }
                    },
                    Ok(value) => {
                        let all = values.push(value);
                        assert forall|i: int| 0 <= i < results.len() implies results[i] == Ok::<
                            T,
                            ParseError,
                        >(#[trigger] all[i]) by {
                            if i < front.len() {
                                assert(front[i] == Ok::<T, ParseError>(values[i]));
                            }
                        }
                    },
                }
            },
        }
    }
}

/// When every element succeeded, the collection holds their values.
pub proof fn lemma_collect_all_ok<T>(results: Seq<Result<T, ParseError>>, values: Seq<T>)
    requires
        results.len() == values.len(),
        forall|i: int| 0 <= i < results.len() ==> #[trigger] results[i] == Ok::<T, ParseError>(
            values[i],
        ),
    ensures
        collect(results) == Ok::<Seq<T>, ParseError>(values),
    decreases results.len(),
{
    if results.len() == 0 {
        assert(values =~= Seq::empty());
    } else {
        lemma_collect_all_ok(results.drop_last(), values.drop_last());
        assert(results.last() == Ok::<T, ParseError>(values.last()));
        assert(values.drop_last().push(values.last()) =~= values);
    }
}

/// Two runs of results that differ only where the first shows the failure
/// `e` collect to the same outcome, unless that outcome is `e` itself.
pub proof fn lemma_collect_agree<T>(
    first: Seq<Result<T, ParseError>>,
    second: Seq<Result<T, ParseError>>,
    e: ParseError,
)
    requires
        first.len() == second.len(),
        forall|i: int|
            0 <= i < first.len() && #[trigger] first[i] != Err::<T, ParseError>(e) ==> second[i]
                == first[i],
        collect(first) != Err::<Seq<T>, ParseError>(e),
    ensures
        collect(second) == collect(first),
    decreases first.len(),
{
    if first.len() > 0 {
        lemma_collect_agree(first.drop_last(), second.drop_last(), e);
        if collect(first.drop_last()) is Ok {
            assert(first[first.len() - 1] != Err::<T, ParseError>(e));
        }
    }
}

} // verus!
