use crate::errors::ParseError;
use vstd::prelude::*;

verus! {

/// The parse of `count` items in a row at the start of `input`, each by
/// `item`: the items and the number of bytes that they take together. The
/// first item that fails fails the row.
#[verifier::opaque]
pub open spec fn repeat_parse<T>(
    item: spec_fn(Seq<u8>) -> Result<(T, nat), ParseError>,
    input: Seq<u8>,
    count: nat,
) -> Result<(Seq<T>, nat), ParseError>
    decreases count,
{
    if count == 0 {
        Ok((Seq::empty(), 0))
    } else {
        match item(input) {
            Err(e) => Err(e),
            Ok((first, n)) => match repeat_parse(item, input.skip(n as int), (count - 1) as nat) {
                Err(e) => Err(e),
                Ok((others, m)) => Ok((seq![first] + others, n + m)),
            },
        }
    }
}

/// A row of no items takes no byte.
pub proof fn lemma_repeat_none<T>(
    item: spec_fn(Seq<u8>) -> Result<(T, nat), ParseError>,
    input: Seq<u8>,
)
    ensures
        repeat_parse(item, input, 0) == Ok::<(Seq<T>, nat), ParseError>((Seq::empty(), 0)),
{
    reveal_with_fuel(repeat_parse, 1);
}

/// What a reader knows after `done` items of a row of `count`: how the parse
/// of the whole row follows from the parse of the rest. `found` holds the
/// items read and `used` the bytes that they took.
pub open spec fn repeat_progress<T>(
    item: spec_fn(Seq<u8>) -> Result<(T, nat), ParseError>,
    input: Seq<u8>,
    count: nat,
    found: Seq<T>,
    used: nat,
) -> bool {
    &&& found.len() <= count
    &&& used <= input.len()
    &&& match repeat_parse(item, input.skip(used as int), (count - found.len()) as nat) {
        Ok((others, m)) => repeat_parse(item, input, count) == Ok::<(Seq<T>, nat), ParseError>(
            (found + others, used + m),
        ),
        Err(e) => repeat_parse(item, input, count) == Err::<(Seq<T>, nat), ParseError>(e),
    }
}

/// A reader that has read nothing yet knows what it must.
pub proof fn lemma_repeat_start<T>(
    item: spec_fn(Seq<u8>) -> Result<(T, nat), ParseError>,
    input: Seq<u8>,
    count: nat,
)
    ensures
        repeat_progress(item, input, count, Seq::<T>::empty(), 0),
{
    assert(input.skip(0) =~= input);
    match repeat_parse(item, input, count) {
        Ok((others, m)) => {
            assert(Seq::<T>::empty() + others =~= others);
        },
        Err(e) => {},
    }
}

/// Where the next item fails, the row fails with it.
pub proof fn lemma_repeat_fails<T>(
    item: spec_fn(Seq<u8>) -> Result<(T, nat), ParseError>,
    input: Seq<u8>,
    count: nat,
    found: Seq<T>,
    used: nat,
)
    requires
        repeat_progress(item, input, count, found, used),
        found.len() < count,
        item(input.skip(used as int)) is Err,
    ensures
        repeat_parse(item, input, count) == Err::<(Seq<T>, nat), ParseError>(
            item(input.skip(used as int))->Err_0,
        ),
{
    reveal_with_fuel(repeat_parse, 2);
}

/// Where the next item parses, the reader goes on behind it.
pub proof fn lemma_repeat_step<T>(
    item: spec_fn(Seq<u8>) -> Result<(T, nat), ParseError>,
    input: Seq<u8>,
    count: nat,
    found: Seq<T>,
    used: nat,
)
    requires
        repeat_progress(item, input, count, found, used),
        found.len() < count,
        item(input.skip(used as int)) matches Ok((_, n)) && used + n <= input.len(),
    ensures
        repeat_progress(
            item,
            input,
            count,
            found.push(item(input.skip(used as int))->Ok_0.0),
            used + item(input.skip(used as int))->Ok_0.1,
        ),
{
    reveal_with_fuel(repeat_parse, 2);
    let next = item(input.skip(used as int))->Ok_0.0;
    let n = item(input.skip(used as int))->Ok_0.1;
    assert(input.skip(used as int).skip(n as int) =~= input.skip((used + n) as int));
    match repeat_parse(item, input.skip((used + n) as int), (count - found.len() - 1) as nat) {
        Ok((others, m)) => {
            assert(found + (seq![next] + others) =~= found.push(next) + others);
        },
        Err(e) => {},
    }
}

/// A reader that has read every item has read the row.
pub proof fn lemma_repeat_end<T>(
    item: spec_fn(Seq<u8>) -> Result<(T, nat), ParseError>,
    input: Seq<u8>,
    count: nat,
    found: Seq<T>,
    used: nat,
)
    requires
        repeat_progress(item, input, count, found, used),
        found.len() == count,
    ensures
        repeat_parse(item, input, count) == Ok::<(Seq<T>, nat), ParseError>((found, used)),
{
    lemma_repeat_none(item, input.skip(used as int));
    assert(found + Seq::<T>::empty() =~= found);
}

} // verus!
