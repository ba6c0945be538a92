//! Archives: the header that holds the code table, and the body that holds
//! the codewords of the source.
//!
//! ```text
//! [ with Hamming blocks: the five bytes "hmmcl" and one byte, the payload length ]
//! [ for each byte with a codeword, in the order of the bytes:
//!   the byte | the length of its codeword in bits | the codeword, packed ]
//! [ two zero bytes ]
//! [ the body: the codewords of the source, packed; in Hamming blocks if asked for ]
//! ```

use std::collections::HashMap;
use vstd::prelude::*;
use crate::algorithms::hamming::{
    add_parity_package, decode_package, encode_package, lemma_block_len_bound,
    lemma_decode_package_concat, lemma_encode_package_concat, max_data_len, message_len,
    message_length, remove_parity_package,
};
use crate::algorithms::huffman::{huffman_codes, lemma_huffman_code_lengths};
use crate::algorithms::shannon_fano::{lemma_shannon_fano_code_lengths, shannon_fano_codes};
use crate::algorithms::{huffman, shannon_fano};
use crate::bit_map::{
    lemma_drained_push, lemma_push_bits, lemma_push_bits_concat, lemma_push_bits_flushed, BitMap,
    BitMapView,
};
use crate::types::{CodeType, EncodingSettings, FileInfo};
use crate::utils::naming::{has_next_name, increment_file_index, next_name};
use crate::bits::copy_slice;
use crate::utils::formulae::{lemma_occurrences_concat, lemma_occurs, occurrences};
use crate::utils::parse_file;
use crate::bits::{
    append_slice, bytes_to_bits, lemma_bytes_to_bits_concat, normalize, pack_padded, unpack_bytes,
};
use crate::utils::trie::{builder_build, builder_new, builder_push, trie_exact_match, trie_words};
use trie_rs::Trie;
use crate::code_table::{code_of, code_stream, lemma_code_stream_concat, lookup, table_view};
use crate::utils::constants::{
    ARCHIVE_EXTENSION, DEFAULT_BUFFER_SIZE, DICTIONARY_END, HAMMING_CODE_LENGTH_KEY,
};

verus! {

/// What the header holds for one byte: the byte, the length of its codeword
/// and the codeword, packed.
pub open spec fn entry_bytes(symbol: u8, code: Seq<u8>) -> Seq<u8> {
    seq![symbol, code.len() as u8] + pack_padded(normalize(code))
}

/// What the header holds for the bytes below `upto`.
pub open spec fn entries_bytes(table: Map<u8, Seq<u8>>, upto: nat) -> Seq<u8>
    decreases upto,
{
    if upto == 0 {
        Seq::empty()
    } else {
        let before = entries_bytes(table, (upto - 1) as nat);
        let symbol = (upto - 1) as u8;
        if table.contains_key(symbol) {
            before + entry_bytes(symbol, table[symbol])
        } else {
            before
        }
    }
}

/// What opens the header: nothing, or the mark of the Hamming blocks and the
/// payload length.
pub open spec fn hamming_bytes(hamming_code_length: Option<u8>) -> Seq<u8> {
    match hamming_code_length {
        Some(code_length) => seq![104u8, 109u8, 109u8, 99u8, 108u8, code_length],
        None => Seq::empty(),
    }
}

/// The header of an archive.
pub open spec fn header_bytes(table: Map<u8, Seq<u8>>, hamming_code_length: Option<u8>) -> Seq<
    u8,
> {
    hamming_bytes(hamming_code_length) + entries_bytes(table, 256) + seq![0u8, 0u8]
}

/// The bits of the body: the codewords, in Hamming blocks if asked for.
pub open spec fn body_bits(stream: Seq<u8>, hamming_code_length: Option<u8>) -> Seq<u8> {
    match hamming_code_length {
        Some(code_length) => encode_package(stream, code_length as nat),
        None => stream,
    }
}

/// The body of an archive: its bits packed, the last byte padded with zero
/// bits.
pub open spec fn body_bytes(stream: Seq<u8>, hamming_code_length: Option<u8>) -> Seq<u8> {
    pack_padded(normalize(body_bits(stream, hamming_code_length)))
}

/// Appends the header to `file`. No codeword is longer than 255 bits: the
/// header has one byte for the length.
pub fn create_dictionary_header(
    file: &mut Vec<u8>,
    dict: &HashMap<u8, Vec<u8>>,
    hamming_code_length: Option<u8>,
)
    requires
        forall|b: u8| dict@.contains_key(b) ==> (#[trigger] dict@[b])@.len() <= 255,
    ensures
        final(file)@ == old(file)@ + header_bytes(table_view(dict@), hamming_code_length),
{
    let mut bitmap = BitMap::new();
    let ghost table = table_view(dict@);

    if let Some(code_length) = hamming_code_length {
        append_slice(file, &HAMMING_CODE_LENGTH_KEY);
        file.push(code_length);
    }
    proof {
        assert(file@ =~= old(file)@ + hamming_bytes(hamming_code_length));
    }

    let mut key: usize = 0;
    while key < 256
        invariant
            key <= 256,
            table == table_view(dict@),
            forall|b: u8| dict@.contains_key(b) ==> (#[trigger] dict@[b])@.len() <= 255,
            bitmap.wf(),
            bitmap@ == BitMapView::empty(),
            file@ == old(file)@ + hamming_bytes(hamming_code_length) + entries_bytes(
                table,
                key as nat,
            ),
        decreases 256 - key,
    {
        match lookup(dict, key as u8) {
            Some(bit_sequence) => {
                let ghost before = file@;
                // write original symbol
                file.push(key as u8);

                // write code length
                file.push(bit_sequence.len() as u8);

                // get symbol's code and write it to file
                bitmap.add_bit_sequence(bit_sequence);
                bitmap.flush_to_file(file);
                proof {
                    lemma_push_bits_flushed(bit_sequence@);
                    assert(file@ =~= before + entry_bytes(key as u8, table[key as u8]));
                    assert(before + entry_bytes(key as u8, table[key as u8]) =~= old(file)@
                        + hamming_bytes(hamming_code_length) + entries_bytes(
                        table,
                        (key + 1) as nat,
                    ));
                }
            },
            None => {},
        }
        key += 1;
    }

    // mark delimiter that corresponds to the end of the header
    append_slice(file, &DICTIONARY_END);
    proof {
        assert(file@ =~= old(file)@ + header_bytes(table, hamming_code_length));
    }
}

/// Appends the codeword of each byte of `buf` to `bits`.
fn push_codes(bitmap: &mut BitMap, dictionary: &HashMap<u8, Vec<u8>>, buf: &[u8])
    requires
        old(bitmap).wf(),
    ensures
        final(bitmap).wf(),
        final(bitmap)@ == old(bitmap)@.push_bits(code_stream(buf@, table_view(dictionary@))),
{
    let ghost table = table_view(dictionary@);
    let n = buf.len();
    let mut i: usize = 0;
    while i < n
        invariant
            i <= n,
            n == buf.len(),
            table == table_view(dictionary@),
            bitmap.wf(),
            bitmap@ == old(bitmap)@.push_bits(code_stream(buf@.take(i as int), table)),
        decreases n - i,
    {
        proof {
            assert(buf@.take(i + 1).drop_last() =~= buf@.take(i as int));
            lemma_push_bits_concat(
                old(bitmap)@,
                code_stream(buf@.take(i as int), table),
                code_of(table, buf@[i as int]),
            );
        }
        match lookup(dictionary, buf[i]) {
            Some(code) => {
                bitmap.add_bit_sequence(code);
            },
            None => {},
        }
        i += 1;
    }
    proof {
        assert(buf@.take(n as int) =~= buf@);
    }
}

/// Writes the codewords of the bytes of `buf` behind the bits of `bitmap`
/// and appends the bytes that this completes to `output_file`. At the end of
/// the source the last byte is completed with zero bits; before that its
/// bits stay in `bitmap`.
pub fn transform_data_to_raw(
    output_file: &mut Vec<u8>,
    dictionary: &HashMap<u8, Vec<u8>>,
    bitmap: &mut BitMap,
    buf: &[u8],
    end_of_file: bool,
)
    requires
        old(bitmap).wf(),
    ensures
        final(bitmap).wf(),
        ({
            let pushed = old(bitmap)@.push_bits(code_stream(buf@, table_view(dictionary@)));
            if end_of_file {
                &&& final(output_file)@ == old(output_file)@ + pushed.flushed().bytes
                &&& final(bitmap)@ == BitMapView::empty()
            } else {
                &&& final(output_file)@ == old(output_file)@ + pushed.bytes
                &&& final(bitmap)@ == pushed.drained()
            }
        }),
{
    push_codes(bitmap, dictionary, buf);

    if end_of_file {
        bitmap.flush_to_file(output_file)
    } else {
        bitmap.flush_filled_to_file(output_file)
    }
}

/// The number of bits of `len` bits that make whole payloads of `data_len`
/// bits; at the end of the source, all of them.
pub open spec fn aligned_len(len: nat, data_len: nat, end_of_file: bool) -> nat {
    if end_of_file {
        len
    } else {
        (len - len % data_len) as nat
    }
}

/// Collects the codewords of the bytes of `buf` behind the bits of `carry`,
/// encodes the whole payloads of `data_len` bits among them as Hamming
/// blocks, writes the blocks behind the bits of `bitmap` and appends the
/// bytes that this completes to `output_file`. The bits that make no whole
/// payload stay in `carry`. At the end of the source they are encoded too,
/// filled up with zero bits, and the last byte is completed with zero bits.
pub fn transform_data_to_hamming_codes(
    output_file: &mut Vec<u8>,
    dictionary: &HashMap<u8, Vec<u8>>,
    bitmap: &mut BitMap,
    carry: &mut Vec<u8>,
    buf: &[u8],
    end_of_file: bool,
    data_len: usize,
)
    requires
        old(bitmap).wf(),
        0 < data_len <= max_data_len(),
    ensures
        final(bitmap).wf(),
        ({
            let bits = old(carry)@ + code_stream(buf@, table_view(dictionary@));
            let cut = aligned_len(bits.len(), data_len as nat, end_of_file) as int;
            let pushed = old(bitmap)@.push_bits(encode_package(bits.take(cut), data_len as nat));
            &&& final(carry)@ == bits.skip(cut)
            &&& if end_of_file {
                &&& final(output_file)@ == old(output_file)@ + pushed.flushed().bytes
                &&& final(bitmap)@ == BitMapView::empty()
            } else {
                &&& final(output_file)@ == old(output_file)@ + pushed.bytes
                &&& final(bitmap)@ == pushed.drained()
            }
        }),
{
    let ghost table = table_view(dictionary@);
    let n = buf.len();
    let mut i: usize = 0;
    while i < n
        invariant
            i <= n,
            n == buf.len(),
            table == table_view(dictionary@),
            carry@ == old(carry)@ + code_stream(buf@.take(i as int), table),
        decreases n - i,
    {
        proof {
            assert(buf@.take(i + 1).drop_last() =~= buf@.take(i as int));
        }
        match lookup(dictionary, buf[i]) {
            Some(code) => {
                append_slice(carry, code.as_slice());
            },
            None => {
                proof {
                    assert(carry@ + Seq::<u8>::empty() =~= carry@);
                }
            },
        }
        proof {
            assert(old(carry)@ + code_stream(buf@.take(i as int), table) + code_of(
                table,
                buf@[i as int],
            ) =~= old(carry)@ + (code_stream(buf@.take(i as int), table) + code_of(
                table,
                buf@[i as int],
            )));
        }
        i += 1;
    }
    proof {
        assert(buf@.take(n as int) =~= buf@);
    }

    let total = carry.len();
    proof {
        vstd::arithmetic::div_mod::lemma_mod_decreases(total as nat, data_len as nat);
    }
    let cut = if end_of_file {
        total
    } else {
        total - total % data_len
    };
    let encoded = add_parity_package(&carry.as_slice()[0..cut], data_len);
    let rest = carry.split_off(cut);
    *carry = rest;

    bitmap.add_bit_sequence(&encoded);

    if end_of_file {
        bitmap.flush_to_file(output_file)
    } else {
        bitmap.flush_filled_to_file(output_file)
    }
}

/// Appends the body of the archive of `source` to `output_file`. The source
/// is taken in chunks of the buffer size.
pub fn write_compressed_file(
    source: &[u8],
    output_file: &mut Vec<u8>,
    dictionary: &HashMap<u8, Vec<u8>>,
    hamming_code_length: Option<u8>,
)
    requires
        hamming_code_length matches Some(code_length) ==> code_length >= 1,
    ensures
        final(output_file)@ == old(output_file)@ + body_bytes(
            code_stream(source@, table_view(dictionary@)),
            hamming_code_length,
        ),
{
    let mut bitmap = BitMap::new();
    let ghost table = table_view(dictionary@);
    let len = source.len();
    let mut position: usize = 0;
    let mut finished = false;
    proof {
        assert(source@.take(0) =~= Seq::<u8>::empty());
        assert(output_file@ + Seq::<u8>::empty() =~= output_file@);
    }

    if let Some(hmcl) = hamming_code_length {
        let data_len = hmcl as usize;
        let mut carry: Vec<u8> = Vec::new();
        let ghost mut done: nat = 0;
        proof {
            assert(Seq::<u8>::empty().take(0) =~= Seq::<u8>::empty());
            assert(Seq::<u8>::empty().skip(0) =~= Seq::<u8>::empty());
        }

        while !finished
            invariant
                position <= len,
                len == source.len(),
                table == table_view(dictionary@),
                0 < data_len <= 255,
                data_len == hmcl,
                bitmap.wf(),
                finished ==> position == len,
                done <= code_stream(source@.take(position as int), table).len(),
                finished ==> done == code_stream(source@.take(position as int), table).len(),
                !finished ==> done % (data_len as nat) == 0,
                carry@ == code_stream(source@.take(position as int), table).skip(done as int),
                ({
                    let encoded = encode_package(
                        code_stream(source@.take(position as int), table).take(done as int),
                        data_len as nat,
                    );
                    let whole = BitMapView::empty().push_bits(encoded);
                    if finished {
                        output_file@ == old(output_file)@ + whole.flushed().bytes
                    } else {
                        output_file@ == old(output_file)@ + whole.bytes && bitmap@
                            == whole.drained()
                    }
                }),
            decreases len - position + (if finished {
                0int
            } else {
                1int
            }),
        {
            let end = if len - position > DEFAULT_BUFFER_SIZE {
                position + DEFAULT_BUFFER_SIZE
            } else {
                len
            };
            let end_of_file = end >= len;
            let chunk = &source[position..end];
            let ghost before = code_stream(source@.take(position as int), table);
            let ghost encoded = encode_package(before.take(done as int), data_len as nat);
            let ghost whole = BitMapView::empty().push_bits(encoded);
            proof {
                assert(source@.take(end as int) =~= source@.take(position as int) + chunk@);
                lemma_code_stream_concat(source@.take(position as int), chunk@, table);
                lemma_push_bits(BitMapView::empty(), encoded);
            }
            transform_data_to_hamming_codes(
                output_file,
                dictionary,
                &mut bitmap,
                &mut carry,
                chunk,
                end_of_file,
                data_len,
            );
            proof {
                let k = data_len as nat;
                let after = code_stream(source@.take(end as int), table);
                let bits = before.skip(done as int) + code_stream(chunk@, table);
                let cut = aligned_len(bits.len(), k, end_of_file);
                vstd::arithmetic::div_mod::lemma_mod_decreases(bits.len(), k);
                let more = encode_package(bits.take(cut as int), k);
                assert(after.take((done + cut) as int) =~= before.take(done as int) + bits.take(cut as int));
                assert(after.skip((done + cut) as int) =~= bits.skip(cut as int));
                lemma_encode_package_concat(before.take(done as int), bits.take(cut as int), k);
                lemma_push_bits_concat(BitMapView::empty(), encoded, more);
                lemma_drained_push(whole, more);
                if !end_of_file {
                    vstd::arithmetic::div_mod::lemma_fundamental_div_mod(
                        bits.len() as int,
                        k as int,
                    );
                    vstd::arithmetic::div_mod::lemma_mod_multiples_basic(
                        (bits.len() / k) as int,
                        k as int,
                    );
                    vstd::arithmetic::div_mod::lemma_add_mod_noop(
                        done as int,
                        cut as int,
                        k as int,
                    );
                    assert(cut == k * (bits.len() / k));
                    assert(cut == (bits.len() / k) * k) by (nonlinear_arith)
                        requires
                            cut == k * (bits.len() / k),
                    ;
                    assert(cut % k == 0);
                    vstd::arithmetic::div_mod::lemma_small_mod(0, k);
                    assert((done + cut) % k == 0);
                }
                done = done + cut;
            }
            position = end;
            finished = end_of_file;
        }
        proof {
            let stream = code_stream(source@, table);
            assert(source@.take(len as int) =~= source@);
            assert(stream.skip(done as int) =~= carry@);
            assert(carry@.len() == 0);
            assert(stream.take(done as int) =~= stream);
            lemma_push_bits_flushed(encode_package(stream, data_len as nat));
        }
    } else {
        while !finished
            invariant
                position <= len,
                len == source.len(),
                table == table_view(dictionary@),
                bitmap.wf(),
                finished ==> position == len,
                ({
                    let whole = BitMapView::empty().push_bits(
                        code_stream(source@.take(position as int), table),
                    );
                    if finished {
                        output_file@ == old(output_file)@ + whole.flushed().bytes
                    } else {
                        output_file@ == old(output_file)@ + whole.bytes && bitmap@
                            == whole.drained()
                    }
                }),
            decreases len - position + (if finished {
                0int
            } else {
                1int
            }),
        {
            let end = if len - position > DEFAULT_BUFFER_SIZE {
                position + DEFAULT_BUFFER_SIZE
            } else {
                len
            };
            let end_of_file = end >= len;
            let chunk = &source[position..end];
            proof {
                let before = code_stream(source@.take(position as int), table);
                let whole = BitMapView::empty().push_bits(before);
                assert(source@.take(end as int) =~= source@.take(position as int) + chunk@);
                lemma_code_stream_concat(source@.take(position as int), chunk@, table);
                lemma_push_bits(BitMapView::empty(), before);
                lemma_push_bits_concat(BitMapView::empty(), before, code_stream(chunk@, table));
                lemma_drained_push(whole, code_stream(chunk@, table));
            }
            transform_data_to_raw(output_file, dictionary, &mut bitmap, chunk, end_of_file);
            position = end;
            finished = end_of_file;
        }
        proof {
            assert(source@.take(len as int) =~= source@);
            lemma_push_bits_flushed(code_stream(source@, table));
        }
    }
}

/// How often each byte value occurs in `source`, as the coders take it:
/// bytes below 32 are not counted.
pub open spec fn byte_counts(source: Seq<u8>) -> Seq<u64> {
    Seq::new(
        256,
        |b: int|
            if b >= 32 {
                occurrences(source, b as u8) as u64
            } else {
                0u64
            },
    )
}

/// The code that the coder `code_type` gives the bytes of `source`.
pub open spec fn codes_for(source: Seq<u8>, code_type: CodeType) -> Map<u8, Seq<u8>> {
    match code_type {
        CodeType::ShannonFano => shannon_fano_codes(byte_counts(source)),
        CodeType::Huffman => huffman_codes(byte_counts(source)),
    }
}

/// The archive of `source`: the header with the code, then the body.
pub open spec fn archive_bytes(
    source: Seq<u8>,
    code_type: CodeType,
    hamming_code_length: Option<u8>,
) -> Seq<u8> {
    let codes = codes_for(source, code_type);
    header_bytes(codes, hamming_code_length) + body_bytes(
        code_stream(source, codes),
        hamming_code_length,
    )
}

/// The archive of a file and the path that it goes to. The file holds at
/// least one byte from 32 on, and a Hamming payload at least one bit.
pub fn encode_file(settings: EncodingSettings) -> (archive: (String, Vec<u8>))
    requires
        exists|i: int|
            0 <= i < settings.file_info.0@.len() && (#[trigger] settings.file_info.0@[i]) >= 32,
        settings.hamming_code_length matches Some(code_length) ==> code_length >= 1,
    ensures
        archive.0@ == settings.file_info.1@ + ARCHIVE_EXTENSION@,
        archive.1@ == archive_bytes(
            settings.file_info.0@,
            settings.code_type,
            settings.hamming_code_length,
        ),
{
    let (original_file, input_path) = settings.file_info;
    let ghost source = original_file@;

    let out_path = input_path.concat(ARCHIVE_EXTENSION);

    let stats = parse_file(original_file.as_slice());
    proof {
        let i = choose|i: int| 0 <= i < source.len() && (#[trigger] source[i]) >= 32;
        lemma_occurs(source, i);
        assert(stats.0@[source[i] as int] != 0);
        assert forall|b: int| 0 <= b < 256 implies stats.0@[b] == byte_counts(source)[b] by {
            lemma_occurrences_concat(source, Seq::empty(), b as u8);
        }
        assert(stats.0@ =~= byte_counts(source));
        lemma_huffman_code_lengths(byte_counts(source));
        lemma_shannon_fano_code_lengths(byte_counts(source));
    }
    let dictionary = match settings.code_type {
        CodeType::ShannonFano => shannon_fano::encode(stats),
        CodeType::Huffman => huffman::encode(stats),
    };
    proof {
        let codes = codes_for(source, settings.code_type);
        assert forall|b: u8| dictionary@.contains_key(b) implies (#[trigger] dictionary@[b])@.len()
            <= 255 by {
            assert(codes.contains_key(b));
            assert(codes[b] == dictionary@[b]@);
        }
    }

    let mut output_file: Vec<u8> = Vec::new();

    create_dictionary_header(&mut output_file, &dictionary, settings.hamming_code_length);

    write_compressed_file(
        original_file.as_slice(),
        &mut output_file,
        &dictionary,
        settings.hamming_code_length,
    );
    proof {
        assert(output_file@ =~= archive_bytes(
            source,
            settings.code_type,
            settings.hamming_code_length,
        ));
    }

    (out_path, output_file)
}

// ---------------------------------------------------------------------------
// Reading an archive

/// What the header of an archive says.
pub struct Header {
    /// The codewords, each with its byte, in the order of the header. The
    /// list is read as a map from codewords to bytes: where a codeword
    /// stands twice, its last entry counts.
    pub dictionary: Vec<(Vec<u8>, u8)>,
    /// Where the body begins.
    pub offset: usize,
    /// The number of bits of a Hamming payload, where the body holds Hamming
    /// blocks.
    pub hamming_code_len: Option<usize>,
}

/// What a header says, as plain values.
pub ghost struct HeaderView {
    pub dictionary: Seq<(Seq<u8>, u8)>,
    pub offset: int,
    pub hamming_code_len: Option<usize>,
}

/// The codewords of a dictionary as sequences.
pub open spec fn dictionary_view(dictionary: Seq<(Vec<u8>, u8)>) -> Seq<(Seq<u8>, u8)> {
    Seq::new(dictionary.len(), |i: int| (dictionary[i].0@, dictionary[i].1))
}

impl View for Header {
    type V = HeaderView;

    open spec fn view(&self) -> HeaderView {
        HeaderView {
            dictionary: dictionary_view(self.dictionary@),
            offset: self.offset as int,
            hamming_code_len: self.hamming_code_len,
        }
    }
}

/// The number of bytes that hold `code_length` bits.
pub open spec fn bytes_taken(code_length: u8) -> int {
    (code_length + 7) / 8
}

/// The entries of a header that begin at `offset`, and where the body
/// begins behind the two zero bytes that end them. There is none where the
/// buffer ends before the header does.
pub open spec fn entries_from(buf: Seq<u8>, offset: int) -> Option<(Seq<(Seq<u8>, u8)>, int)>
    decreases buf.len() - offset,
{
    if offset < 0 || offset + 2 > buf.len() {
        None
    } else if buf[offset] == 0 && buf[offset + 1] == 0 {
        Some((Seq::empty(), offset + 2))
    } else {
        let symbol = buf[offset];
        let code_length = buf[offset + 1];
        let begin = offset + 2;
        let end = begin + bytes_taken(code_length);
        if end > buf.len() {
            None
        } else {
            let code = bytes_to_bits(buf.subrange(begin, end)).take(code_length as int);
            match entries_from(buf, end) {
                Some((rest, body)) => Some((seq![(code, symbol)] + rest, body)),
                None => None,
            }
        }
    }
}

/// The buffer begins with the mark of the Hamming blocks.
pub open spec fn has_hamming_key(buf: Seq<u8>) -> bool {
    buf.len() >= 5 && buf.take(5) == seq![104u8, 109u8, 109u8, 99u8, 108u8]
}

/// What the header at the beginning of `buf` says. It says nothing where the
/// buffer ends before the header does.
pub open spec fn parse_header(buf: Seq<u8>) -> Option<HeaderView> {
    if has_hamming_key(buf) {
        if buf.len() >= 6 {
            match entries_from(buf, 6) {
                Some((dictionary, offset)) => Some(
                    HeaderView { dictionary, offset, hamming_code_len: Some(buf[5] as usize) },
                ),
                None => None,
            }
        } else {
            None
        }
    } else {
        match entries_from(buf, 0) {
            Some((dictionary, offset)) => Some(
                HeaderView { dictionary, offset, hamming_code_len: None },
            ),
            None => None,
        }
    }
}

/// Whether `buf` begins with the mark of the Hamming blocks.
fn starts_with_hamming_key(buf: &[u8]) -> (found: bool)
    ensures
        found == has_hamming_key(buf@),
{
    if buf.len() < 5 {
        return false;
    }
    let mut i: usize = 0;
    while i < 5
        invariant
            i <= 5,
            buf.len() >= 5,
            forall|j: int| 0 <= j < i ==> buf@[j] == HAMMING_CODE_LENGTH_KEY@[j],
        decreases 5 - i,
    {
        if buf[i] != HAMMING_CODE_LENGTH_KEY[i] {
            proof {
                assert(buf@.take(5)[i as int] == buf@[i as int]);
            }
            return false;
        }
        i += 1;
    }
    proof {
        assert(buf@.take(5) =~= seq![104u8, 109u8, 109u8, 99u8, 108u8]);
    }
    true
}

/// Reads the header at the beginning of `buf`: the mark of the Hamming
/// blocks and the payload length if they are there, then the entries up to
/// the two zero bytes. Hands out nothing where `buf` ends before the header
/// does.
pub fn read_dictionary_header(buf: &[u8]) -> (header: Option<Header>)
    ensures
        match parse_header(buf@) {
            Some(view) => header is Some && header->0@ == view,
            None => header is None,
        },
{
    let mut offset: usize = 0;
    let mut dictionary: Vec<(Vec<u8>, u8)> = Vec::new();
    let mut bitmap = BitMap::new();

    let hamming_code_len = if starts_with_hamming_key(buf) {
        if buf.len() < 6 {
            return None;
        }
        offset += HAMMING_CODE_LENGTH_KEY.len() + 1;
        Some(buf[HAMMING_CODE_LENGTH_KEY.len()] as usize)
    } else {
        None
    };
    let ghost start = offset as int;
    proof {
        match entries_from(buf@, start) {
            Some((rest, body)) => {
                assert(Seq::<(Seq<u8>, u8)>::empty() + rest =~= rest);
            },
            None => {},
        }
    }

    // reading dictionary from header of the file
    loop
        invariant_except_break
            offset <= buf.len(),
            bitmap.wf(),
            bitmap@ == BitMapView::empty(),
            parse_header(buf@) == (match entries_from(buf@, start) {
                Some((dictionary, offset)) => Some(
                    HeaderView { dictionary, offset, hamming_code_len },
                ),
                None => None,
            }),
            entries_from(buf@, start) == (match entries_from(buf@, offset as int) {
                Some((rest, body)) => Some((dictionary_view(dictionary@) + rest, body)),
                None => None,
            }),
        ensures
            parse_header(buf@) == Some(
                HeaderView {
                    dictionary: dictionary_view(dictionary@),
                    offset: offset as int,
                    hamming_code_len,
                },
            ),
        decreases buf.len() - offset,
    {
        if buf.len() - offset < 2 {
            return None;
        }
        if buf[offset] == 0 && buf[offset + 1] == 0 {
            offset += 2;
            proof {
                assert(dictionary_view(dictionary@) + Seq::<(Seq<u8>, u8)>::empty()
                    =~= dictionary_view(dictionary@));
            }
            break ;
        }
        // get original symbol code
        let symbol = buf[offset];
        let ghost entry = offset as int;
        offset += 1;

        // get bit sequence length
        let code_length = buf[offset];
        offset += 1;

        // get bit sequence
        let bytes_taken_by_code = ((code_length as usize) + 7) / 8;
        if buf.len() - offset < bytes_taken_by_code {
            return None;
        }
        bitmap.add_bytes(&buf[offset..offset + bytes_taken_by_code]);
        offset += bytes_taken_by_code;

        let code = bitmap.get_bits(code_length as usize);
        proof {
            let before = dictionary_view(dictionary@);
            assert(Seq::<u8>::empty() + buf@.subrange(entry + 2, offset as int) =~= buf@.subrange(
                entry + 2,
                offset as int,
            ));
            assert(code@ =~= bytes_to_bits(buf@.subrange(entry + 2, offset as int)).take(
                code_length as int,
            ));
            assert(dictionary_view(dictionary@.push((code, symbol))) =~= before.push(
                (code@, symbol),
            ));
            match entries_from(buf@, offset as int) {
                Some((rest, body)) => {
                    assert(before + (seq![(code@, symbol)] + rest) =~= before.push(
                        (code@, symbol),
                    ) + rest);
                },
                None => {},
            }
        }
        dictionary.push((code, symbol));
        bitmap.clear();
    }

    Some(Header { dictionary, offset, hamming_code_len })
}

/// `word` is a codeword of the dictionary. A codeword without bits is none.
pub open spec fn is_word(dictionary: Seq<(Seq<u8>, u8)>, word: Seq<u8>) -> bool {
    word.len() > 0 && exists|i: int| 0 <= i < dictionary.len() && (#[trigger] dictionary[i]).0 == word
}

/// The byte that `word` stands for: that of the last entry with this
/// codeword.
pub open spec fn symbol_of(dictionary: Seq<(Seq<u8>, u8)>, word: Seq<u8>) -> Option<u8>
    decreases dictionary.len(),
{
    if dictionary.len() == 0 {
        None
    } else if dictionary.last().0 == word {
        Some(dictionary.last().1)
    } else {
        symbol_of(dictionary.drop_last(), word)
    }
}

/// A codeword of the dictionary stands for a byte.
pub proof fn lemma_symbol_of(dictionary: Seq<(Seq<u8>, u8)>, word: Seq<u8>)
    requires
        is_word(dictionary, word),
    ensures
        symbol_of(dictionary, word) is Some,
    decreases dictionary.len(),
{
    let i = choose|i: int| 0 <= i < dictionary.len() && (#[trigger] dictionary[i]).0 == word;
    if dictionary.last().0 != word {
        assert(dictionary.drop_last()[i].0 == word);
        lemma_symbol_of(dictionary.drop_last(), word);
    }
}

/// Whether two slices hold the same bytes.
fn slices_equal(a: &[u8], b: &[u8]) -> (equal: bool)
    ensures
        equal == (a@ == b@),
{
    if a.len() != b.len() {
        return false;
    }
    let mut i: usize = 0;
    while i < a.len()
        invariant
            i <= a.len(),
            a.len() == b.len(),
            forall|j: int| 0 <= j < i ==> a@[j] == b@[j],
        decreases a.len() - i,
    {
        if a[i] != b[i] {
            return false;
        }
        i += 1;
    }
    proof {
        assert(a@ =~= b@);
    }
    true
}

/// The byte that `word` stands for.
pub fn lookup_symbol(dictionary: &Vec<(Vec<u8>, u8)>, word: &[u8]) -> (symbol: Option<u8>)
    ensures
        symbol == symbol_of(dictionary_view(dictionary@), word@),
{
    let ghost view = dictionary_view(dictionary@);
    let mut i = dictionary.len();
    proof {
        assert(view.take(dictionary.len() as int) =~= view);
    }
    while i > 0
        invariant
            i <= dictionary.len(),
            view == dictionary_view(dictionary@),
            symbol_of(view, word@) == symbol_of(view.take(i as int), word@),
        decreases i,
    {
        i -= 1;
        proof {
            assert(view.take(i + 1).drop_last() =~= view.take(i as int));
        }
        if slices_equal(dictionary[i].0.as_slice(), word) {
            return Some(dictionary[i].1);
        }
    }
    None
}

/// The prefix tree of the codewords of the dictionary. A codeword without
/// bits is left out: it matches nothing.
pub fn build_codes_trie(dict: &Vec<(Vec<u8>, u8)>) -> (trie: Trie<u8>)
    ensures
        forall|word: Seq<u8>|
            #[trigger] trie_words(trie).contains(word) <==> is_word(dictionary_view(dict@), word),
{
    let ghost view = dictionary_view(dict@);
    let mut builder = builder_new();
    let mut i: usize = 0;
    while i < dict.len()
        invariant
            i <= dict.len(),
            view == dictionary_view(dict@),
            forall|word: Seq<u8>|
                #[trigger] crate::utils::trie::builder_words(builder).contains(word) <==> is_word(
                    view.take(i as int),
                    word,
                ),
        decreases dict.len() - i,
    {
        let code = dict[i].0.as_slice();
        let ghost before = crate::utils::trie::builder_words(builder);
        if code.len() > 0 {
            builder_push(&mut builder, code);
        }
        proof {
            let now = crate::utils::trie::builder_words(builder);
            assert forall|word: Seq<u8>| #[trigger] now.contains(word) <==> is_word(
                view.take(i + 1),
                word,
            ) by {
                if is_word(view.take(i as int), word) {
                    let j = choose|j: int|
                        0 <= j < view.take(i as int).len() && (#[trigger] view.take(i as int)[j]).0
                            == word;
                    assert(view.take(i + 1)[j].0 == word);
                }
                if is_word(view.take(i + 1), word) {
                    let j = choose|j: int|
                        0 <= j < view.take(i + 1).len() && (#[trigger] view.take(i + 1)[j]).0
                            == word;
                    if j < i {
                        assert(view.take(i as int)[j].0 == word);
                    }
                }
                if word == code@ && code@.len() > 0 {
                    assert(view.take(i + 1)[i as int].0 == word);
                }
                assert(before.contains(word) <==> is_word(view.take(i as int), word));
            }
        }
        i += 1;
    }
    proof {
        assert(view.take(dict.len() as int) =~= view);
    }

    builder_build(builder)
}

/// What greedy decoding makes of a stream of bits: the bytes of the
/// codewords found, and the bits behind the last of them.
pub ghost struct Decoding {
    pub symbols: Seq<u8>,
    pub rest: Seq<u8>,
}

/// Greedy decoding of `stream`, where no beginning of it that is shorter
/// than `hi` bits is a codeword: the shortest beginning that is a codeword
/// gives a byte, and decoding goes on behind it. Where no beginning is a
/// codeword, the stream stays as it is.
pub open spec fn decode_from(stream: Seq<u8>, dictionary: Seq<(Seq<u8>, u8)>, hi: int) -> Decoding
    decreases stream.len(), stream.len() - hi + 1,
{
    if hi < 1 || hi > stream.len() {
        Decoding { symbols: Seq::empty(), rest: stream }
    } else if is_word(dictionary, stream.take(hi)) {
        let next = decode_from(stream.skip(hi), dictionary, 1);
        let symbol = symbol_of(dictionary, stream.take(hi));
        Decoding { symbols: seq![symbol->0] + next.symbols, rest: next.rest }
    } else {
        decode_from(stream, dictionary, hi + 1)
    }
}

/// What the decoder carries from one chunk to the next: the bits that made
/// no codeword yet, and, with Hamming blocks, the raw bits that made no
/// block yet.
pub ghost struct DecoderView {
    pub stream: Seq<u8>,
    pub raw: Seq<u8>,
}

/// What a chunk of the body makes of the state of the decoder: the next
/// state and the bytes decoded.
pub ghost struct DecodeStep {
    pub state: DecoderView,
    pub output: Seq<u8>,
}

/// The length of a Hamming block that holds `code_length` payload bits.
pub open spec fn block_len(code_length: usize) -> nat {
    message_len(code_length as nat)
}

/// The number of the first `len` bits that make whole blocks of `n` bits.
pub open spec fn whole_blocks(len: nat, n: nat) -> int {
    len - len % n
}

/// What the bytes `bytes` of the body make of the state `state`.
pub open spec fn decode_step(
    state: DecoderView,
    bytes: Seq<u8>,
    dictionary: Seq<(Seq<u8>, u8)>,
    hamming_code_length: Option<usize>,
) -> DecodeStep {
    let bits = bytes_to_bits(bytes);
    let coded = match hamming_code_length {
        Some(code_length) => {
            let all = state.raw + bits;
            let n = block_len(code_length);
            decode_package(all.take(whole_blocks(all.len(), n)), n)
        },
        None => bits,
    };
    let raw = match hamming_code_length {
        Some(code_length) => {
            let all = state.raw + bits;
            all.skip(whole_blocks(all.len(), block_len(code_length)))
        },
        None => state.raw,
    };
    let decoding = decode_from(state.stream + coded, dictionary, 1);
    DecodeStep { state: DecoderView { stream: decoding.rest, raw }, output: decoding.symbols }
}

/// Nothing is left to do on the state: no beginning of its bits is a
/// codeword, and its raw bits make no block.
pub open spec fn settled(
    state: DecoderView,
    dictionary: Seq<(Seq<u8>, u8)>,
    hamming_code_length: Option<usize>,
) -> bool {
    &&& decode_from(state.stream, dictionary, 1) == (Decoding {
        symbols: Seq::empty(),
        rest: state.stream,
    })
    &&& match hamming_code_length {
        Some(code_length) => state.raw.len() < block_len(code_length),
        None => true,
    }
}

/// Decoding may begin at any length below which no beginning is a codeword.
pub proof fn lemma_decode_skip(stream: Seq<u8>, dictionary: Seq<(Seq<u8>, u8)>, hi: int)
    requires
        1 <= hi,
        forall|h: int| 1 <= h < hi && h <= stream.len() ==> !is_word(dictionary, stream.take(h)),
    ensures
        decode_from(stream, dictionary, 1) == decode_from(stream, dictionary, hi),
    decreases hi,
{
    if hi > 1 {
        lemma_decode_skip(stream, dictionary, hi - 1);
        if hi - 1 <= stream.len() {
            assert(!is_word(dictionary, stream.take(hi - 1)));
        }
    }
}

/// Decoding a stream in two parts is decoding it at once: the second part
/// goes behind what the first part left.
pub proof fn lemma_decode_concat(
    stream: Seq<u8>,
    more: Seq<u8>,
    dictionary: Seq<(Seq<u8>, u8)>,
    hi: int,
)
    requires
        1 <= hi,
        forall|h: int| 1 <= h < hi && h <= stream.len() ==> !is_word(dictionary, stream.take(h)),
    ensures
        decode_from(stream + more, dictionary, 1).symbols == decode_from(
            stream,
            dictionary,
            hi,
        ).symbols + decode_from(
            decode_from(stream, dictionary, hi).rest + more,
            dictionary,
            1,
        ).symbols,
        decode_from(stream + more, dictionary, 1).rest == decode_from(
            decode_from(stream, dictionary, hi).rest + more,
            dictionary,
            1,
        ).rest,
    decreases stream.len(), stream.len() - hi + 1,
{
    let whole = stream + more;
    if hi > stream.len() {
        assert(Seq::<u8>::empty() + decode_from(whole, dictionary, 1).symbols =~= decode_from(
            whole,
            dictionary,
            1,
        ).symbols);
    } else {
        assert forall|h: int| 1 <= h < hi + 1 && h <= whole.len() && h != hi implies !is_word(
            dictionary,
            whole.take(h),
        ) by {
            assert(whole.take(h) =~= stream.take(h));
        }
        lemma_decode_skip(whole, dictionary, hi);
        assert(whole.take(hi) =~= stream.take(hi));
        if is_word(dictionary, stream.take(hi)) {
            assert(whole.skip(hi) =~= stream.skip(hi) + more);
            lemma_decode_concat(stream.skip(hi), more, dictionary, 1);
            let first = decode_from(stream.skip(hi), dictionary, 1);
            let second = decode_from(first.rest + more, dictionary, 1);
            let symbol = symbol_of(dictionary, stream.take(hi));
            assert(seq![symbol->0] + (first.symbols + second.symbols) =~= (seq![symbol->0]
                + first.symbols) + second.symbols);
        } else {
            lemma_decode_concat(stream, more, dictionary, hi + 1);
            lemma_decode_skip(whole, dictionary, hi + 1);
        }
    }
}

/// Decodes what it can of `stream` and appends the bytes to `decoded_bytes`.
/// Hands out where the bits begin that made no codeword.
fn decode_stream(
    stream: &Vec<u8>,
    trie: &Trie<u8>,
    dictionary: &Vec<(Vec<u8>, u8)>,
    decoded_bytes: &mut Vec<u8>,
) -> (ptr_lo: usize)
    requires
        forall|word: Seq<u8>|
            #[trigger] trie_words(*trie).contains(word) <==> is_word(
                dictionary_view(dictionary@),
                word,
            ),
    ensures
        ptr_lo <= stream.len(),
        final(decoded_bytes)@ == old(decoded_bytes)@ + decode_from(
            stream@,
            dictionary_view(dictionary@),
            1,
        ).symbols,
        stream@.skip(ptr_lo as int) == decode_from(stream@, dictionary_view(dictionary@), 1).rest,
{
    let ghost words = dictionary_view(dictionary@);
    let ghost whole = decode_from(stream@, words, 1);
    let length = stream.len();

    let mut ptr_lo: usize = 0;
    let mut ptr_hi: usize = 0;
    proof {
        assert(stream@.skip(0) =~= stream@);
    }
    while ptr_hi < length
        invariant
            ptr_lo <= ptr_hi <= length,
            length == stream.len(),
            words == dictionary_view(dictionary@),
            whole == decode_from(stream@, words, 1),
            forall|word: Seq<u8>|
                #[trigger] trie_words(*trie).contains(word) <==> is_word(words, word),
            decoded_bytes@ + decode_from(
                stream@.skip(ptr_lo as int),
                words,
                ptr_hi - ptr_lo + 1,
            ).symbols == old(decoded_bytes)@ + whole.symbols,
            decode_from(stream@.skip(ptr_lo as int), words, ptr_hi - ptr_lo + 1).rest
                == whole.rest,
        decreases length - ptr_hi,
    {
        ptr_hi += 1;
        let window = &stream.as_slice()[ptr_lo..ptr_hi];
        let ghost tail = stream@.skip(ptr_lo as int);
        proof {
            assert(window@ =~= tail.take(ptr_hi - ptr_lo));
        }
        if trie_exact_match(trie, window) {
            proof {
                assert(trie_words(*trie).contains(window@));
                lemma_symbol_of(words, window@);
                assert(tail.skip(ptr_hi - ptr_lo) =~= stream@.skip(ptr_hi as int));
                let next = decode_from(stream@.skip(ptr_hi as int), words, 1);
                let symbol = symbol_of(words, window@);
                assert(decoded_bytes@.push(symbol->0) + next.symbols =~= decoded_bytes@ + (
                seq![symbol->0] + next.symbols));
            }
            let symbol = lookup_symbol(dictionary, window);
            decoded_bytes.push(symbol.unwrap());

            ptr_lo = ptr_hi;
        } else {
            proof {
                if window@.len() > 0 {
                    assert(!trie_words(*trie).contains(window@));
                }
            }
        }
    }
    proof {
        assert(decoded_bytes@ + Seq::<u8>::empty() =~= decoded_bytes@);
    }
    ptr_lo
}

/// What the decoder carries from one chunk of the body to the next.
pub struct DecoderState {
    /// The bits that made no codeword yet.
    pub decoded_bit_stream: Vec<u8>,
    /// The raw bits that made no Hamming block yet.
    pub connecting_bits: Vec<u8>,
}

impl View for DecoderState {
    type V = DecoderView;

    open spec fn view(&self) -> DecoderView {
        DecoderView { stream: self.decoded_bit_stream@, raw: self.connecting_bits@ }
    }
}

impl DecoderState {
    /// The state at the beginning of the body.
    pub fn new() -> (state: Self)
        ensures
            state@ == (DecoderView { stream: Seq::empty(), raw: Seq::empty() }),
    {
        DecoderState { decoded_bit_stream: Vec::new(), connecting_bits: Vec::new() }
    }
}

/// Decodes the bytes `buf` of the body: with Hamming blocks the bits go
/// behind the raw bits of `state`, the whole blocks among them are corrected
/// and their payloads taken; the bits then go behind the bits of `state`
/// and are decoded greedily. The bytes found are appended to `decoded_file`;
/// what makes no block and no codeword yet stays in `state`.
pub fn decode_chunk(
    state: &mut DecoderState,
    buf: &[u8],
    decoded_file: &mut Vec<u8>,
    trie: &Trie<u8>,
    dictionary: &Vec<(Vec<u8>, u8)>,
    hamming_code_length: Option<usize>,
)
    requires
        forall|word: Seq<u8>|
            #[trigger] trie_words(*trie).contains(word) <==> is_word(
                dictionary_view(dictionary@),
                word,
            ),
        hamming_code_length matches Some(code_length) ==> 1 <= code_length <= max_data_len(),
    ensures
        ({
            let step = decode_step(
                old(state)@,
                buf@,
                dictionary_view(dictionary@),
                hamming_code_length,
            );
            &&& final(state)@ == step.state
            &&& final(decoded_file)@ == old(decoded_file)@ + step.output
        }),
{
    let mut bits = unpack_bytes(buf);

    // if hamming codes are used
    if let Some(code_length) = hamming_code_length {
        let msg_len = message_length(code_length);
        let ghost all = state.connecting_bits@ + bits@;
        state.connecting_bits.append(&mut bits);
        let total = state.connecting_bits.len();
        proof {
            vstd::arithmetic::div_mod::lemma_mod_decreases(total as nat, msg_len as nat);
            vstd::arithmetic::div_mod::lemma_fundamental_div_mod(total as int, msg_len as int);
            vstd::arithmetic::div_mod::lemma_mod_multiples_basic(
                (total / msg_len) as int,
                msg_len as int,
            );
            assert((total / msg_len) * msg_len == msg_len * (total / msg_len))
                by (nonlinear_arith);
        }
        let connection_pos = total - total % msg_len;
        let rest = state.connecting_bits.split_off(connection_pos);
        proof {
            assert(state.connecting_bits@ =~= all.take(connection_pos as int));
        }
        bits = remove_parity_package(state.connecting_bits.as_mut_slice(), msg_len);
        state.connecting_bits = rest;
    }

    state.decoded_bit_stream.append(&mut bits);

    let ptr_lo = decode_stream(&state.decoded_bit_stream, trie, dictionary, decoded_file);

    let tail = state.decoded_bit_stream.split_off(ptr_lo);
    state.decoded_bit_stream = tail;
}

/// One step after the other, put together.
pub open spec fn then_step(
    first: DecodeStep,
    bytes: Seq<u8>,
    dictionary: Seq<(Seq<u8>, u8)>,
    hamming_code_length: Option<usize>,
) -> DecodeStep {
    let second = decode_step(first.state, bytes, dictionary, hamming_code_length);
    DecodeStep { state: second.state, output: first.output + second.output }
}

/// Decoding the body in two chunks is decoding it at once.
pub proof fn lemma_decode_step_concat(
    state: DecoderView,
    a: Seq<u8>,
    b: Seq<u8>,
    dictionary: Seq<(Seq<u8>, u8)>,
    hamming_code_length: Option<usize>,
)
    requires
        hamming_code_length matches Some(code_length) ==> block_len(code_length) > 0,
    ensures
        decode_step(state, a + b, dictionary, hamming_code_length) == then_step(
            decode_step(state, a, dictionary, hamming_code_length),
            b,
            dictionary,
            hamming_code_length,
        ),
{
    let first = decode_step(state, a, dictionary, hamming_code_length);
    let second = decode_step(first.state, b, dictionary, hamming_code_length);
    let whole = decode_step(state, a + b, dictionary, hamming_code_length);
    let bits_a = bytes_to_bits(a);
    let bits_b = bytes_to_bits(b);
    lemma_bytes_to_bits_concat(a, b);
    match hamming_code_length {
        Some(code_length) => {
            let n = block_len(code_length);
            let all1 = state.raw + bits_a;
            let cut1 = whole_blocks(all1.len(), n);
            let raw1 = all1.skip(cut1);
            let all2 = raw1 + bits_b;
            let cut2 = whole_blocks(all2.len(), n);
            let all = state.raw + (bits_a + bits_b);
            let cut = whole_blocks(all.len(), n);
            vstd::arithmetic::div_mod::lemma_mod_decreases(all1.len(), n);
            vstd::arithmetic::div_mod::lemma_mod_decreases(all2.len(), n);
            vstd::arithmetic::div_mod::lemma_mod_decreases(all.len(), n);
            vstd::arithmetic::div_mod::lemma_add_mod_noop(
                all1.len() as int,
                bits_b.len() as int,
                n as int,
            );
            vstd::arithmetic::div_mod::lemma_add_mod_noop(
                (all1.len() % n) as int,
                bits_b.len() as int,
                n as int,
            );
            vstd::arithmetic::div_mod::lemma_mod_twice(all1.len() as int, n as int);
            assert(all.len() % n == all2.len() % n);
            assert(cut == cut1 + cut2);
            assert(all.take(cut) =~= all1.take(cut1) + all2.take(cut2));
            assert(all.skip(cut) =~= all2.skip(cut2));
            vstd::arithmetic::div_mod::lemma_fundamental_div_mod(all1.len() as int, n as int);
            vstd::arithmetic::div_mod::lemma_mod_multiples_basic(
                (all1.len() / n) as int,
                n as int,
            );
            assert((all1.len() / n) * n == n * (all1.len() / n)) by (nonlinear_arith);
            lemma_decode_package_concat(all1.take(cut1), all2.take(cut2), n);
            let coded1 = decode_package(all1.take(cut1), n);
            let coded2 = decode_package(all2.take(cut2), n);
            lemma_decode_concat(state.stream + coded1, coded2, dictionary, 1);
            assert(state.stream + (coded1 + coded2) =~= (state.stream + coded1) + coded2);
        },
        None => {
            lemma_decode_concat(state.stream + bits_a, bits_b, dictionary, 1);
            assert(state.stream + (bits_a + bits_b) =~= (state.stream + bits_a) + bits_b);
        },
    }
}

/// On a state where nothing is left to do, no bytes do nothing.
pub proof fn lemma_decode_step_empty(
    state: DecoderView,
    dictionary: Seq<(Seq<u8>, u8)>,
    hamming_code_length: Option<usize>,
)
    requires
        settled(state, dictionary, hamming_code_length),
    ensures
        decode_step(state, Seq::empty(), dictionary, hamming_code_length) == (DecodeStep {
            state,
            output: Seq::empty(),
        }),
{
    assert(bytes_to_bits(Seq::<u8>::empty()) =~= Seq::<u8>::empty());
    assert(state.raw + Seq::<u8>::empty() =~= state.raw);
    assert(state.stream + Seq::<u8>::empty() =~= state.stream);
    match hamming_code_length {
        Some(code_length) => {
            let n = block_len(code_length);
            vstd::arithmetic::div_mod::lemma_small_mod(state.raw.len(), n);
            assert(state.raw.take(0) =~= Seq::<u8>::empty());
            assert(state.raw.skip(0) =~= state.raw);
        },
        None => {},
    }
}

/// What decoding makes of a whole body.
pub open spec fn decode_body(
    body: Seq<u8>,
    dictionary: Seq<(Seq<u8>, u8)>,
    hamming_code_length: Option<usize>,
) -> Seq<u8> {
    decode_step(
        DecoderView { stream: Seq::empty(), raw: Seq::empty() },
        body,
        dictionary,
        hamming_code_length,
    ).output
}

/// Decodes the body of an archive and appends what it stands for to
/// `decoded_file`. The body is taken in chunks of the buffer size, and each
/// of them in chunks of 1024 bytes.
pub fn write_decoded_file(
    body: &[u8],
    decoded_file: &mut Vec<u8>,
    trie: &Trie<u8>,
    dictionary: &Vec<(Vec<u8>, u8)>,
    hamming_code_length: Option<usize>,
)
    requires
        forall|word: Seq<u8>|
            #[trigger] trie_words(*trie).contains(word) <==> is_word(
                dictionary_view(dictionary@),
                word,
            ),
        hamming_code_length matches Some(code_length) ==> 1 <= code_length <= max_data_len(),
    ensures
        final(decoded_file)@ == old(decoded_file)@ + decode_body(
            body@,
            dictionary_view(dictionary@),
            hamming_code_length,
        ),
{
    let ghost words = dictionary_view(dictionary@);
    let ghost start = DecoderView { stream: Seq::empty(), raw: Seq::empty() };
    let mut state = DecoderState::new();

    let chunk_length: usize = 1024;
    let len = body.len();
    let mut position: usize = 0;

    proof {
        match hamming_code_length {
            Some(code_length) => {
                lemma_block_len_bound(code_length as nat);
                vstd::arithmetic::power2::lemma_pow2_pos(
                    crate::algorithms::hamming::parity_count(code_length as nat),
                );
            },
            None => {},
        }
        assert(settled(start, words, hamming_code_length));
        lemma_decode_step_empty(start, words, hamming_code_length);
        assert(body@.take(0) =~= Seq::<u8>::empty());
        assert(decoded_file@ + Seq::<u8>::empty() =~= decoded_file@);
    }
    while position < len
        invariant
            position <= len,
            len == body.len(),
            chunk_length == 1024,
            words == dictionary_view(dictionary@),
            start == (DecoderView { stream: Seq::empty(), raw: Seq::empty() }),
            forall|word: Seq<u8>|
                #[trigger] trie_words(*trie).contains(word) <==> is_word(words, word),
            hamming_code_length matches Some(code_length) ==> 1 <= code_length <= max_data_len()
                && block_len(code_length) > 0,
            state@ == decode_step(start, body@.take(position as int), words, hamming_code_length).state,
            decoded_file@ == old(decoded_file)@ + decode_step(
                start,
                body@.take(position as int),
                words,
                hamming_code_length,
            ).output,
        decreases len - position,
    {
        let end = if len - position > DEFAULT_BUFFER_SIZE {
            position + DEFAULT_BUFFER_SIZE
        } else {
            len
        };
        let mut chunk_start = position;
        while chunk_start < end
            invariant
                position <= chunk_start <= end <= len,
                len == body.len(),
                chunk_length == 1024,
                words == dictionary_view(dictionary@),
                start == (DecoderView { stream: Seq::empty(), raw: Seq::empty() }),
                forall|word: Seq<u8>|
                    #[trigger] trie_words(*trie).contains(word) <==> is_word(words, word),
                hamming_code_length matches Some(code_length) ==> 1 <= code_length
                    <= max_data_len() && block_len(code_length) > 0,
                state@ == decode_step(
                    start,
                    body@.take(chunk_start as int),
                    words,
                    hamming_code_length,
                ).state,
                decoded_file@ == old(decoded_file)@ + decode_step(
                    start,
                    body@.take(chunk_start as int),
                    words,
                    hamming_code_length,
                ).output,
            decreases end - chunk_start,
        {
            let chunk_end = if end - chunk_start > chunk_length {
                chunk_start + chunk_length
            } else {
                end
            };
            let bytes_chunk = &body[chunk_start..chunk_end];
            proof {
                let before = decode_step(
                    start,
                    body@.take(chunk_start as int),
                    words,
                    hamming_code_length,
                );
                assert(body@.take(chunk_end as int) =~= body@.take(chunk_start as int)
                    + bytes_chunk@);
                lemma_decode_step_concat(
                    start,
                    body@.take(chunk_start as int),
                    bytes_chunk@,
                    words,
                    hamming_code_length,
                );
                let step = decode_step(before.state, bytes_chunk@, words, hamming_code_length);
                assert(old(decoded_file)@ + before.output + step.output =~= old(decoded_file)@
                    + (before.output + step.output));
            }
            decode_chunk(
                &mut state,
                bytes_chunk,
                decoded_file,
                trie,
                dictionary,
                hamming_code_length,
            );
            chunk_start = chunk_end;
        }
        position = end;
    }
    proof {
        assert(body@.take(len as int) =~= body@);
    }
}

/// Why an archive could not be decoded.
#[derive(Debug, Clone, Copy, PartialEq, Eq)]
pub enum DecodeError {
    /// The name of the file does not end as that of an archive does.
    UnsupportedFileType,
    /// The header does not end within the bytes that are read for it, or
    /// asks for Hamming payloads without bits.
    MalformedHeader,
}

impl DecodeError {
    /// What to tell the user.
    pub fn message(&self) -> (text: String)
        ensures
            text@ == (match self {
                DecodeError::UnsupportedFileType => "Unsuported file type."@,
                DecodeError::MalformedHeader => "Could not read the header"@,
            }),
    {
        match self {
            DecodeError::UnsupportedFileType => String::from_str("Unsuported file type."),
            DecodeError::MalformedHeader => String::from_str("Could not read the header"),
        }
    }
}

/// The number of bytes at the beginning of an archive that are read for the
/// header.
pub const HEADER_WINDOW: usize = 2048;

/// The name ends as that of an archive does.
pub open spec fn has_archive_extension(path: Seq<char>) -> bool {
    path.len() >= 3 && path.skip(path.len() - 3) == ARCHIVE_EXTENSION@
}

/// The name without the ending of an archive.
pub open spec fn without_extension(path: Seq<char>) -> Seq<char> {
    path.take(path.len() - 3)
}

/// The bytes that are read for the header: the first 2048 of the archive,
/// with zero bytes behind them where the archive is shorter.
pub open spec fn header_window(archive: Seq<u8>) -> Seq<u8> {
    Seq::new(
        2048,
        |i: int|
            if i < archive.len() {
                archive[i]
            } else {
                0u8
            },
    )
}

/// The body of an archive whose header ends at `offset`.
pub open spec fn body_of(archive: Seq<u8>, offset: int) -> Seq<u8> {
    if offset <= archive.len() {
        archive.skip(offset)
    } else {
        Seq::empty()
    }
}

/// What the archive stands for; nothing where its header cannot be read.
pub open spec fn decoded_archive(archive: Seq<u8>) -> Option<Seq<u8>> {
    match parse_header(header_window(archive)) {
        Some(header) => if header.hamming_code_len == Some(0usize) {
            None
        } else {
            Some(
                decode_body(
                    body_of(archive, header.offset),
                    header.dictionary,
                    header.hamming_code_len,
                ),
            )
        },
        None => None,
    }
}

/// Whether `path` ends as the name of an archive does.
pub fn is_archive_path(path: &str) -> (is: bool)
    ensures
        is == has_archive_extension(path@),
{
    let len = path.unicode_len();
    if len < 3 {
        return false;
    }
    let is = path.get_char(len - 3) == '.' && path.get_char(len - 2) == 'n' && path.get_char(
        len - 1,
    ) == 'k';
    proof {
        reveal_strlit(".nk");
        assert(ARCHIVE_EXTENSION@ =~= seq!['.', 'n', 'k']);
        let tail = path@.skip(len - 3);
        assert(tail[0] == path@[len - 3]);
        assert(tail[1] == path@[len - 2]);
        assert(tail[2] == path@[len - 1]);
        if is {
            assert(tail =~= seq!['.', 'n', 'k']);
        }
    }
    is
}

/// The bytes that are read for the header of `archive`.
pub fn read_header_window(archive: &[u8]) -> (window: Vec<u8>)
    ensures
        window@ == header_window(archive@),
{
    let taken = if archive.len() < HEADER_WINDOW {
        archive.len()
    } else {
        HEADER_WINDOW
    };
    let mut window = copy_slice(&archive[0..taken]);
    while window.len() < HEADER_WINDOW
        invariant
            taken <= window.len() <= 2048,
            taken <= archive.len(),
            taken == archive.len() || taken == 2048,
            forall|i: int| 0 <= i < taken ==> window@[i] == archive@[i],
            forall|i: int| taken <= i < window.len() ==> window@[i] == 0,
        decreases 2048 - window.len(),
    {
        window.push(0);
    }
    proof {
        assert(window@ =~= header_window(archive@));
    }
    window
}

/// Decodes an archive: hands out what it stands for and the path that this
/// goes to, which is the name that follows the name of the archive without
/// its ending. A file whose name does not end as that of an archive does is
/// refused before anything is read.
pub fn decode_file(file_info: FileInfo) -> (result: Result<(String, Vec<u8>), DecodeError>)
    requires
        has_archive_extension(file_info.1@) ==> has_next_name(without_extension(file_info.1@)),
    ensures
        match result {
            Ok((out_path, decoded_file)) => {
                &&& has_archive_extension(file_info.1@)
                &&& out_path@ == next_name(without_extension(file_info.1@))
                &&& decoded_archive(file_info.0@) == Some(decoded_file@)
            },
            Err(DecodeError::UnsupportedFileType) => !has_archive_extension(file_info.1@),
            Err(DecodeError::MalformedHeader) => has_archive_extension(file_info.1@)
                && decoded_archive(file_info.0@) is None,
        },
{
    let (encoded_file, input_path) = file_info;
    if !is_archive_path(input_path.as_str()) {
        return Err(DecodeError::UnsupportedFileType);
    }
    proof {
        reveal_strlit(".nk");
    }
    let path_len = input_path.as_str().unicode_len();
    let out_path = input_path.as_str().substring_char(0, path_len - 3);
    let out_path = increment_file_index(out_path);

    let mut decoded_file: Vec<u8> = Vec::new();

    // actual algorithm of decoding starts here
    let window = read_header_window(encoded_file.as_slice());
    let header = match read_dictionary_header(window.as_slice()) {
        Some(header) => header,
        None => {
            return Err(DecodeError::MalformedHeader);
        },
    };
    match header.hamming_code_len {
        Some(code_length) => {
            if code_length == 0 {
                return Err(DecodeError::MalformedHeader);
            }
        },
        None => {},
    }

    let trie = build_codes_trie(&header.dictionary);
    let body = if header.offset <= encoded_file.len() {
        &encoded_file.as_slice()[header.offset..encoded_file.len()]
    } else {
        &encoded_file.as_slice()[0..0]
    };
    proof {
        assert(body@ =~= body_of(encoded_file@, header.offset as int));
    }

    write_decoded_file(body, &mut decoded_file, &trie, &header.dictionary, header.hamming_code_len);

    Ok((out_path, decoded_file))
}

} // verus!
