use crate::bytes::{be_value, lemma_be_value_bound, read_be};
use crate::crc32c::{assert_crc32c_on_data, crc32c_checksum, read_crc32c};
use crate::errors::ParseError;
use crate::repeat::{
    lemma_repeat_end, lemma_repeat_fails, lemma_repeat_start, lemma_repeat_step, repeat_parse,
    repeat_progress,
};
use crate::uvarint::{lemma_uvarint_parse_len, read_uvarint, uvarint_parse};
use vstd::prelude::*;
use vstd::slice::{slice_subrange, slice_to_vec};
use vstd::utf8::{encode_utf8, valid_utf8};

verus! {

/// `String::from_utf8`: the string whose bytes are `bytes`, where they are
/// valid UTF-8, and nothing where they are not.
#[verifier::external_body]
fn string_from_utf8(bytes: Vec<u8>) -> (r: Option<String>)
    ensures
        r is Some <==> valid_utf8(bytes@),
        r matches Some(s) ==> encode_utf8(s@) == bytes@,
{
    String::from_utf8(bytes).ok()
}

/// The bytes of each string of a list.
pub open spec fn bytes_of_strings(strings: Seq<String>) -> Seq<Seq<u8>> {
    Seq::new(strings.len(), |i: int| encode_utf8(strings[i]@))
}

/// The signed number that four bytes spell, big-endian, in two's complement.
pub open spec fn be_i32_value(bytes: Seq<u8>) -> int {
    if be_value(bytes) >= 0x8000_0000 {
        be_value(bytes) - 0x1_0000_0000
    } else {
        be_value(bytes) as int
    }
}

/// The parse of a count of symbols: four bytes, big-endian, not negative.
pub open spec fn number_of_symbols_parse(input: Seq<u8>) -> Result<(nat, nat), ParseError> {
    if input.len() < 4 {
        Err(ParseError::Truncated { needed: None })
    } else if be_i32_value(input.take(4)) < 0 {
        Err(ParseError::Symbol)
    } else {
        Ok((be_i32_value(input.take(4)) as nat, 4))
    }
}

/// The parse of a symbol: its length as a uvarint, then as many bytes, which
/// must be valid UTF-8. Gives the bytes and the number of bytes taken.
pub open spec fn symbol_parse(input: Seq<u8>) -> Result<(Seq<u8>, nat), ParseError> {
    match uvarint_parse(input) {
        Err(e) => Err(e),
        Ok((len, n)) => if input.len() - n < len {
            Err(ParseError::Truncated { needed: None })
        } else if !valid_utf8(input.subrange(n as int, n + len)) {
            Err(ParseError::Symbol)
        } else {
            Ok((input.subrange(n as int, n + len), (n + len) as nat))
        },
    }
}

/// The parse of a symbol, as the item of a row.
pub open spec fn symbol_item() -> spec_fn(Seq<u8>) -> Result<(Seq<u8>, nat), ParseError> {
    |input: Seq<u8>| symbol_parse(input)
}

/// The parse of the data of a symbol table: the count, then the symbols.
pub open spec fn counted_symbols_parse(input: Seq<u8>) -> Result<(Seq<Seq<u8>>, nat), ParseError> {
    match number_of_symbols_parse(input) {
        Err(e) => Err(e),
        Ok((count, n)) => match repeat_parse(symbol_item(), input.skip(n as int), count) {
            Err(e) => Err(e),
            Ok((symbols, m)) => Ok((symbols, n + m)),
        },
    }
}

/// The parse of a symbol table at the start of `input`: the length of the
/// data in four bytes, the data, and the CRC-32C of the data. Gives the
/// symbols and the number of bytes of the table.
///
/// A negative length is `TooLarge`; data that the symbols do not use up is in
/// breach of the framing.
pub open spec fn symbol_table_parse(input: Seq<u8>) -> Result<(Seq<Seq<u8>>, nat), ParseError> {
    if input.len() < 4 {
        Err(ParseError::Truncated { needed: None })
    } else {
        let len = be_i32_value(input.take(4));
        if len < 0 {
            Err(ParseError::TooLarge)
        } else if input.len() - 4 < len {
            Err(ParseError::Truncated { needed: Some((len - (input.len() - 4)) as u64) })
        } else if input.len() - 4 - len < 4 {
            Err(ParseError::Truncated { needed: None })
        } else if be_value(input.subrange(4 + len, 4 + len + 4)) != crc32c_checksum(
            input.subrange(4, 4 + len),
        ) {
            Err(ParseError::CrcMismatch)
        } else {
            match counted_symbols_parse(input.subrange(4, 4 + len)) {
                Err(e) => Err(e),
                Ok((symbols, n)) => if n != len {
                    Err(ParseError::Framing)
                } else {
                    Ok((symbols, (4 + len + 4) as nat))
                },
            }
        }
    }
}

/// Reads a signed number of four bytes, big-endian.
fn read_be_i32(input: &[u8]) -> (r: Result<(&[u8], i32), ParseError>)
    ensures
        if input@.len() < 4 {
            r matches Err(err) && err == (ParseError::Truncated { needed: None })
        } else {
            r matches Ok((rest, v)) && v == be_i32_value(input@.take(4)) && rest@ == input@.skip(4)
        },
{
    match read_be(input, 4) {
        Ok((rest, v)) => {
            proof {
                lemma_be_value_bound(input@.take(4));
            }
            if v >= 0x8000_0000 {
                Ok((rest, (v as i64 - 0x1_0000_0000) as i32))
            } else {
                Ok((rest, v as i32))
            }
        },
        Err(e) => Err(e),
    }
}

fn read_number_of_symbols(input: &[u8]) -> (r: Result<(&[u8], usize), ParseError>)
    ensures
        match number_of_symbols_parse(input@) {
            Ok((count, n)) => r matches Ok((rest, found)) && found == count && rest@ == input@.skip(
                n as int,
            ),
            Err(e) => r matches Err(err) && err == e,
        },
{
    let (rest, len) = match read_be_i32(input) {
        Ok(found) => found,
        Err(e) => {
            return Err(e);
        },
    };
    if len < 0 {
        return Err(ParseError::Symbol);
    }
    Ok((rest, len as usize))
}

fn read_symbol(input: &[u8]) -> (r: Result<(&[u8], String), ParseError>)
    ensures
        match symbol_parse(input@) {
            Ok((bytes, n)) => r matches Ok((rest, symbol)) && encode_utf8(symbol@) == bytes
                && n <= input@.len() && rest@ == input@.skip(n as int),
            Err(e) => r matches Err(err) && err == e,
        },
{
    let (after_len, str_len) = match read_uvarint(input) {
        Ok(found) => found,
        Err(e) => {
            return Err(e);
        },
    };
    proof {
        lemma_uvarint_parse_len(input@);
    }
    let have: usize = after_len.len();
    if (have as u64) < str_len {
        return Err(ParseError::Truncated { needed: None });
    }
    let len: usize = str_len as usize;
    let bytes = slice_subrange(after_len, 0, len);
    let rest = slice_subrange(after_len, len, have);
    let ghost n = uvarint_parse(input@).unwrap().1;
    proof {
        assert(bytes@ =~= input@.subrange(n as int, n + len));
        assert(rest@ =~= input@.skip(n + len));
    }
    match string_from_utf8(slice_to_vec(bytes)) {
        Some(symbol) => Ok((rest, symbol)),
        None => Err(ParseError::Symbol),
    }
}

fn read_symbols(input: &[u8]) -> (r: Result<(&[u8], Vec<String>), ParseError>)
    ensures
        match counted_symbols_parse(input@) {
            Ok((symbols, n)) => r matches Ok((rest, found)) && bytes_of_strings(found@) == symbols
                && n <= input@.len() && rest@ == input@.skip(n as int),
            Err(e) => r matches Err(err) && err == e,
        },
{
    let (after_count, count) = match read_number_of_symbols(input) {
        Ok(found) => found,
        Err(e) => {
            return Err(e);
        },
    };
    let mut symbols: Vec<String> = Vec::new();
    let mut cursor: &[u8] = after_count;
    let ghost mut used: nat = 0;
    let mut i: usize = 0;
    proof {
        lemma_repeat_start(symbol_item(), after_count@, count as nat);
        assert(bytes_of_strings(symbols@) =~= Seq::<Seq<u8>>::empty());
    }
    while i < count
        invariant
            i <= count,
            cursor@ == after_count@.skip(used as int),
            number_of_symbols_parse(input@) == Ok::<(nat, nat), ParseError>((count as nat, 4)),
            after_count@ == input@.skip(4),
            symbols@.len() == i,
            repeat_progress(
                symbol_item(),
                after_count@,
                count as nat,
                bytes_of_strings(symbols@),
                used,
            ),
        decreases count - i,
    {
        let ghost before = bytes_of_strings(symbols@);
        let (rest, symbol) = match read_symbol(cursor) {
            Ok(found) => found,
            Err(e) => {
                proof {
                    lemma_repeat_fails(symbol_item(), after_count@, count as nat, before, used);
                }
                return Err(e);
            },
        };
        let ghost n = symbol_parse(cursor@).unwrap().1;
        let ghost bytes = symbol_parse(cursor@).unwrap().0;
        symbols.push(symbol);
        proof {
            assert(bytes_of_strings(symbols@) =~= before.push(bytes));
            lemma_repeat_step(symbol_item(), after_count@, count as nat, before, used);
            assert(after_count@.skip(used as int).skip(n as int) =~= after_count@.skip(
                (used + n) as int,
            ));
            used = used + n;
        }
        cursor = rest;
        i = i + 1;
    }
    proof {
        lemma_repeat_end(
            symbol_item(),
            after_count@,
            count as nat,
            bytes_of_strings(symbols@),
            used,
        );
        assert(input@.skip(4).skip(used as int) =~= input@.skip((4 + used) as int));
    }
    Ok((cursor, symbols))
}

/// Reads a symbol table from the start of `input` and returns the bytes
/// that follow it together with the symbols.
pub fn read_symbol_table(input: &[u8]) -> (r: Result<(&[u8], Vec<String>), ParseError>)
    ensures
        match symbol_table_parse(input@) {
            Ok((symbols, n)) => r matches Ok((rest, found)) && bytes_of_strings(found@) == symbols
                && n <= input@.len() && rest@ == input@.skip(n as int),
            Err(e) => r matches Err(err) && err == e,
        },
{
    let (remaining_input, len) = match read_be_i32(input) {
        Ok(found) => found,
        Err(e) => {
            return Err(e);
        },
    };
    if len < 0 {
        return Err(ParseError::TooLarge);
    }
    let have: usize = remaining_input.len();
    if (have as u64) < len as u64 {
        return Err(ParseError::Truncated { needed: Some(len as u64 - have as u64) });
    }
    let chunk_size: usize = len as usize;
    let symbol_table_data = slice_subrange(remaining_input, 0, chunk_size);
    let after_data = slice_subrange(remaining_input, chunk_size, have);
    let (remaining_input, expected_crc32c) = match read_crc32c(after_data) {
        Ok(found) => found,
        Err(e) => {
            return Err(e);
        },
    };
    proof {
        assert(after_data@.take(4) =~= input@.subrange(4 + len, 4 + len + 4));
        assert(symbol_table_data@ =~= input@.subrange(4, 4 + len));
        assert(remaining_input@ =~= input@.skip(4 + len + 4));
    }
    match assert_crc32c_on_data(input, 4, chunk_size, expected_crc32c) {
        Ok(_) => {},
        Err(e) => {
            return Err(e);
        },
    }
    let (left, symbol_table) = match read_symbols(symbol_table_data) {
        Ok(found) => found,
        Err(e) => {
            return Err(e);
        },
    };
    if left.len() != 0 {
        return Err(ParseError::Framing);
    }
    Ok((remaining_input, symbol_table))
}

} // verus!
