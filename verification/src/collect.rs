//! Gathering results into arrays.

use vstd::prelude::*;

verus! {

/// Whether `e` is the first error among the first `n` of `items`.
pub open spec fn is_first_error<T, E>(items: Seq<Result<T, E>>, n: int, e: E) -> bool {
    exists|i: int|
        0 <= i < n && i < items.len() && #[trigger] items[i] == Err::<T, E>(e) && forall|j: int|
            0 <= j < i ==> (#[trigger] items[j]) is Ok
}

/// Whether there is an error among the first `n` of `items`.
pub open spec fn has_error<T, E>(items: Seq<Result<T, E>>, n: int) -> bool {
    exists|i: int| 0 <= i < n && i < items.len() && (#[trigger] items[i]) is Err
}

/// Trusted: `TryFrom<Vec<T>> for [T; N]` makes an array of all that the vector holds, in order, if
/// the length of the vector is exactly that of the array; otherwise it hands the vector back.
#[verifier::external_body]
fn array_from_vec<T, const N: usize>(vec: Vec<T>) -> (r: Result<[T; N], Vec<T>>)
    ensures
        match r {
            Ok(array) => vec@.len() == N && array@ == vec@,
            Err(back) => vec@.len() != N && back@ == vec@,
        },
{
    vec.try_into()
}

/// An array of what `vec` holds.
fn into_array<T, const N: usize>(vec: Vec<T>) -> (r: [T; N])
    requires
        vec@.len() == N,
    ensures
        r@ == vec@,
{
    match array_from_vec(vec) {
        Ok(array) => array,
        Err(_) => vstd::pervasive::unreached(),
    }
}

/// Collects the first `N` of `items`, up to the first error. It does not matter whether there are
/// more items or fewer: if there are fewer, the elements that remain have their default value.
pub fn collect_array<T: Default, E, const N: usize>(items: Vec<Result<T, E>>) -> (r: Result<
    [T; N],
    E,
>)
    ensures
        match r {
            Ok(array) => forall|i: int|
                0 <= i < N ==> if i < items@.len() {
                    items@[i] == Ok::<T, E>(#[trigger] array@[i])
                } else {
                    call_ensures(T::default, (), array@[i])
                },
            Err(e) => is_first_error(items@, N as int, e),
        },
{
    let ghost given = items@;
    let mut container: Vec<T> = Vec::new();
    for item in iter: items
        invariant
            iter.seq() == given,
            container@.len() == (if iter.index() < N { iter.index() } else { N as int }),
            forall|i: int|
                0 <= i < container@.len() ==> given[i] == Ok::<T, E>(#[trigger] container@[i]),
    {
        if container.len() < N {
            match item {
                Ok(value) => container.push(value),
                Err(e) => {
                    assert forall|j: int| 0 <= j < container@.len() implies (
                    #[trigger] given[j]) is Ok by {
                        assert(given[j] == Ok::<T, E>(container@[j]));
                    }
                    assert(given[container@.len() as int] == Err::<T, E>(e));
                    return Err(e);
                },
            }
        }
    }
    while container.len() < N
        invariant
            container@.len() <= N,
            container@.len() < N ==> container@.len() >= given.len(),
            forall|i: int|
                0 <= i < container@.len() ==> if i < given.len() {
                    given[i] == Ok::<T, E>(#[trigger] container@[i])
                } else {
                    call_ensures(T::default, (), container@[i])
                },
        decreases N - container.len(),
    {
        container.push(T::default());
    }
    Ok(into_array(container))
}

/// As [`collect_array`], but of exactly `N` items, unless there is an error among them.
pub fn collect_array_pedantic<T, E, const N: usize>(items: Vec<Result<T, E>>) -> (r: Result<
    [T; N],
    E,
>)
    requires
        items@.len() == N || has_error(items@, N as int),
    ensures
        match r {
            Ok(array) => items@.len() == N && forall|i: int|
                0 <= i < N ==> items@[i] == Ok::<T, E>(#[trigger] array@[i]),
            Err(e) => is_first_error(items@, N as int, e),
        },
{
    let ghost given = items@;
    let mut container: Vec<T> = Vec::new();
    for item in iter: items
        invariant
            iter.seq() == given,
            given.len() == N || has_error(given, N as int),
            container@.len() == iter.index(),
            forall|i: int|
                0 <= i < container@.len() ==> given[i] == Ok::<T, E>(#[trigger] container@[i]),
    {
        match item {
            Ok(value) => container.push(value),
            Err(e) => {
                assert forall|j: int| 0 <= j < container@.len() implies (
                #[trigger] given[j]) is Ok by {
                    assert(given[j] == Ok::<T, E>(container@[j]));
                }
                assert(given[container@.len() as int] == Err::<T, E>(e));
                return Err(e);
            },
        }
    }
    assert forall|j: int| 0 <= j < given.len() implies (#[trigger] given[j]) is Ok by {
        assert(given[j] == Ok::<T, E>(container@[j]));
    }
    Ok(into_array(container))
}

} // verus!
