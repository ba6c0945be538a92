//! Code tables: which bit sequence stands for which byte.

use std::collections::HashMap;
use vstd::prelude::*;

verus! {

/// What a code table says: the codeword of each byte that has one.
pub open spec fn table_view(table: Map<u8, Vec<u8>>) -> Map<u8, Seq<u8>> {
    Map::new(|b: u8| table.contains_key(b), |b: u8| table[b]@)
}

/// The codeword of `byte` in `table`; no bits where it has none.
pub open spec fn code_of(table: Map<u8, Seq<u8>>, byte: u8) -> Seq<u8> {
    if table.contains_key(byte) {
        table[byte]
    } else {
        Seq::empty()
    }
}

/// The codewords of the bytes of `data`, one after the other. A byte without
/// a codeword adds nothing.
pub open spec fn code_stream(data: Seq<u8>, table: Map<u8, Seq<u8>>) -> Seq<u8>
    decreases data.len(),
{
    if data.len() == 0 {
        Seq::empty()
    } else {
        code_stream(data.drop_last(), table) + code_of(table, data.last())
    }
}

/// The codewords of data in two parts are those of the first part, then
/// those of the second.
pub proof fn lemma_code_stream_concat(a: Seq<u8>, b: Seq<u8>, table: Map<u8, Seq<u8>>)
    ensures
        code_stream(a + b, table) == code_stream(a, table) + code_stream(b, table),
    decreases b.len(),
{
    if b.len() == 0 {
        assert(a + b =~= a);
        assert(code_stream(a, table) + Seq::<u8>::empty() =~= code_stream(a, table));
    } else {
        assert((a + b).drop_last() =~= a + b.drop_last());
        lemma_code_stream_concat(a, b.drop_last(), table);
        assert(code_stream(a, table) + code_stream(b.drop_last(), table) + code_of(
            table,
            b.last(),
        ) =~= code_stream(a, table) + (code_stream(b.drop_last(), table) + code_of(
            table,
            b.last(),
        )));
    }
}

/// No codeword is the beginning of the codeword of another byte.
pub open spec fn prefix_free(table: Map<u8, Seq<u8>>) -> bool {
    forall|a: u8, b: u8|
        table.contains_key(a) && table.contains_key(b) && a != b ==> !(#[trigger] table[a]).is_prefix_of(
            #[trigger] table[b],
        )
}

/// The codeword of `byte` in `table`, if it has one.
pub fn lookup(table: &HashMap<u8, Vec<u8>>, byte: u8) -> (code: Option<&Vec<u8>>)
    ensures
        match code {
            Some(c) => table@.contains_key(byte) && *c == table@[byte],
            None => !table@.contains_key(byte),
        },
{
    broadcast use vstd::std_specs::hash::group_hash_axioms;

    table.get(&byte)
}

} // verus!
