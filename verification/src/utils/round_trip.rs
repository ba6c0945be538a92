//! What decoding makes of an archive that encoding made.
//!
//! Decoding gives the source back where the source holds no byte below 32,
//! the header fits into the bytes that are read for it, and the zero bits
//! that fill the last payload and the last byte do not begin with a
//! codeword.

use vstd::prelude::*;
use crate::algorithms::hamming::{
    decode_package, encode_package, fill_len, lemma_block_len_bound, lemma_decode_package_concat,
    lemma_decode_zero_blocks, lemma_package_round_trip, message_len, parity_count,
};
use crate::algorithms::huffman::{
    lemma_huffman_code, lemma_huffman_code_bits, lemma_huffman_code_lengths,
};
use crate::algorithms::shannon_fano::{
    lemma_shannon_fano_code, lemma_shannon_fano_code_bits, lemma_shannon_fano_code_lengths,
};
use crate::algorithms::{lemma_ranking, present, ranking};
use crate::bits::{
    bytes_to_bits, is_bits, lemma_unpack_packed, normalize, pack_padded, padding, zero_bits,
};
use crate::code_table::{code_of, code_stream, lemma_code_stream_concat, prefix_free};
use crate::types::CodeType;
use crate::utils::formulae::{lemma_occurrences_concat, lemma_occurs, occurrences};
use crate::utils::logic::{
    archive_bytes, body_bits, body_bytes, body_of, byte_counts, bytes_taken, codes_for,
    decode_body, decode_from, decoded_archive, entries_bytes, entries_from, entry_bytes,
    hamming_bytes, has_hamming_key, header_bytes, header_window, is_word, lemma_decode_skip,
    parse_header, symbol_of, whole_blocks, Decoding, HeaderView,
};

verus! {

/// The codewords can stand in a header and be told apart: they are bits, at
/// least one and at most 255 each, stand for bytes from 32 on, and none is
/// the beginning of another.
pub open spec fn sound_codes(codes: Map<u8, Seq<u8>>) -> bool {
    &&& prefix_free(codes)
    &&& forall|b: u8|
        codes.contains_key(b) ==> b >= 32 && is_bits(#[trigger] codes[b]) && 1 <= codes[b].len()
            <= 255
}

/// `word` is the codeword of a byte.
pub open spec fn is_codeword(codes: Map<u8, Seq<u8>>, word: Seq<u8>) -> bool {
    exists|b: u8| codes.contains_key(b) && #[trigger] codes[b] == word
}

/// What the header holds for the bytes from `from` on.
pub open spec fn entries_tail(codes: Map<u8, Seq<u8>>, from: nat) -> Seq<u8>
    decreases 256 - from,
{
    if from >= 256 {
        Seq::empty()
    } else if codes.contains_key(from as u8) {
        entry_bytes(from as u8, codes[from as u8]) + entries_tail(codes, from + 1)
    } else {
        entries_tail(codes, from + 1)
    }
}

/// The codewords of the bytes from `from` on, each with its byte, in the
/// order of the bytes.
pub open spec fn dictionary_tail(codes: Map<u8, Seq<u8>>, from: nat) -> Seq<(Seq<u8>, u8)>
    decreases 256 - from,
{
    if from >= 256 {
        Seq::empty()
    } else if codes.contains_key(from as u8) {
        seq![(codes[from as u8], from as u8)] + dictionary_tail(codes, from + 1)
    } else {
        dictionary_tail(codes, from + 1)
    }
}

/// The dictionary that is read from the header of `codes`.
pub open spec fn dictionary_of(codes: Map<u8, Seq<u8>>) -> Seq<(Seq<u8>, u8)> {
    dictionary_tail(codes, 0)
}

/// The entries of the header are those of the bytes below a byte and those
/// of the bytes from it on.
pub proof fn lemma_entries_split(codes: Map<u8, Seq<u8>>, upto: nat)
    requires
        upto <= 256,
    ensures
        entries_bytes(codes, upto) + entries_tail(codes, upto) == entries_bytes(codes, 256),
    decreases 256 - upto,
{
    if upto == 256 {
        assert(entries_bytes(codes, 256) + Seq::<u8>::empty() =~= entries_bytes(codes, 256));
    } else {
        lemma_entries_split(codes, upto + 1);
        let before = entries_bytes(codes, upto);
        let after = entries_tail(codes, upto + 1);
        if codes.contains_key(upto as u8) {
            let entry = entry_bytes(upto as u8, codes[upto as u8]);
            assert((before + entry) + after =~= before + (entry + after));
        }
    }
}

/// Bits are what they stand for.
pub proof fn lemma_normalize_bits(bits: Seq<u8>)
    requires
        is_bits(bits),
    ensures
        normalize(bits) == bits,
{
    assert(normalize(bits) =~= bits);
}

/// The entries of sound codewords are read back as they were written.
pub proof fn lemma_parse_entries(buf: Seq<u8>, codes: Map<u8, Seq<u8>>, from: nat, offset: int)
    requires
        sound_codes(codes),
        from <= 256,
        0 <= offset,
        offset + entries_tail(codes, from).len() + 2 <= buf.len(),
        buf.subrange(offset, offset + entries_tail(codes, from).len() + 2) == entries_tail(
            codes,
            from,
        ) + seq![0u8, 0u8],
    ensures
        entries_from(buf, offset) == Some(
            (dictionary_tail(codes, from), offset + entries_tail(codes, from).len() + 2),
        ),
    decreases 256 - from,
{
    let tail = entries_tail(codes, from);
    let written = buf.subrange(offset, offset + tail.len() + 2);
    if from == 256 {
        assert(written[0] == 0 && written[1] == 0);
    } else if !codes.contains_key(from as u8) {
        lemma_parse_entries(buf, codes, from + 1, offset);
    } else {
        let symbol = from as u8;
        let code = codes[symbol];
        let packed = pack_padded(normalize(code));
        let entry = entry_bytes(symbol, code);
        let rest = entries_tail(codes, from + 1);
        lemma_normalize_bits(code);
        assert(packed.len() == bytes_taken(code.len() as u8));
        assert(written[0] == entry[0]);
        assert(written[1] == entry[1]);
        assert(buf[offset] == symbol);
        assert(buf[offset + 1] == code.len() as u8);
        let begin = offset + 2;
        let end = begin + packed.len();
        assert(buf.subrange(begin, end) =~= packed) by {
            assert forall|i: int| 0 <= i < packed.len() implies buf.subrange(begin, end)[i]
                == packed[i] by {
                assert(written[i + 2] == entry[i + 2]);
            }
        }
        lemma_unpack_packed(code);
        assert(bytes_to_bits(packed).take(code.len() as int) =~= code);
        assert(buf.subrange(end, end + rest.len() + 2) =~= rest + seq![0u8, 0u8]) by {
            assert forall|i: int| 0 <= i < rest.len() + 2 implies buf.subrange(
                end,
                end + rest.len() + 2,
            )[i] == (rest + seq![0u8, 0u8])[i] by {
                assert(written[i + entry.len()] == (tail + seq![0u8, 0u8])[i + entry.len()]);
            }
        }
        lemma_parse_entries(buf, codes, from + 1, end);
    }
}

/// The dictionary of the header holds the codeword of each byte, with that
/// byte, and nothing else.
pub proof fn lemma_dictionary_tail(codes: Map<u8, Seq<u8>>, from: nat)
    requires
        from <= 256,
    ensures
        forall|i: int|
            0 <= i < dictionary_tail(codes, from).len() ==> {
                let entry = #[trigger] dictionary_tail(codes, from)[i];
                codes.contains_key(entry.1) && entry.0 == codes[entry.1]
            },
        forall|b: u8|
            b >= from && codes.contains_key(b) ==> exists|i: int|
                0 <= i < dictionary_tail(codes, from).len() && #[trigger] dictionary_tail(
                    codes,
                    from,
                )[i] == (codes[b], b),
    decreases 256 - from,
{
    let now = dictionary_tail(codes, from);
    if from < 256 {
        let next = dictionary_tail(codes, from + 1);
        lemma_dictionary_tail(codes, from + 1);
        if codes.contains_key(from as u8) {
            assert forall|i: int| 0 <= i < now.len() implies {
                let entry = #[trigger] now[i];
                codes.contains_key(entry.1) && entry.0 == codes[entry.1]
            } by {
                if i > 0 {
                    assert(now[i] == next[i - 1]);
                }
            }
            assert forall|b: u8| b >= from && codes.contains_key(b) implies exists|i: int|
                0 <= i < now.len() && #[trigger] now[i] == (codes[b], b) by {
                if b == from {
                    assert(now[0] == (codes[b], b));
                } else {
                    let i = choose|i: int| 0 <= i < next.len() && #[trigger] next[i] == (codes[b], b);
                    assert(now[i + 1] == (codes[b], b));
                }
            }
        } else {
            assert forall|b: u8| b >= from && codes.contains_key(b) implies exists|i: int|
                0 <= i < now.len() && #[trigger] now[i] == (codes[b], b) by {
                let i = choose|i: int| 0 <= i < next.len() && #[trigger] next[i] == (codes[b], b);
                assert(now[i] == (codes[b], b));
            }
        }
    }
}

/// The byte that a word stands for stands with it in the dictionary.
pub proof fn lemma_symbol_found(dictionary: Seq<(Seq<u8>, u8)>, word: Seq<u8>)
    requires
        symbol_of(dictionary, word) is Some,
    ensures
        exists|i: int|
            0 <= i < dictionary.len() && #[trigger] dictionary[i] == (
                word,
                symbol_of(dictionary, word)->0,
            ),
    decreases dictionary.len(),
{
    if dictionary.last().0 == word {
        assert(dictionary[dictionary.len() - 1] == (word, symbol_of(dictionary, word)->0));
    } else {
        lemma_symbol_found(dictionary.drop_last(), word);
        let i = choose|i: int|
            0 <= i < dictionary.drop_last().len() && #[trigger] dictionary.drop_last()[i] == (
                word,
                symbol_of(dictionary, word)->0,
            );
        assert(dictionary[i] == dictionary.drop_last()[i]);
    }
}

/// In the dictionary of sound codewords the words are the codewords, and
/// each stands for its byte.
pub proof fn lemma_dictionary_of(codes: Map<u8, Seq<u8>>)
    requires
        sound_codes(codes),
    ensures
        forall|word: Seq<u8>|
            #[trigger] is_word(dictionary_of(codes), word) <==> is_codeword(codes, word),
        forall|b: u8|
            codes.contains_key(b) ==> symbol_of(dictionary_of(codes), #[trigger] codes[b]) == Some(
                b,
            ),
{
    let dictionary = dictionary_of(codes);
    lemma_dictionary_tail(codes, 0);
    assert forall|word: Seq<u8>| #[trigger]
        is_word(dictionary, word) <==> is_codeword(codes, word) by {
        if is_word(dictionary, word) {
            let i = choose|i: int| 0 <= i < dictionary.len() && (#[trigger] dictionary[i]).0 == word;
            assert(codes.contains_key(dictionary[i].1) && codes[dictionary[i].1] == word);
        }
        if is_codeword(codes, word) {
            let b = choose|b: u8| codes.contains_key(b) && #[trigger] codes[b] == word;
            let i = choose|i: int|
                0 <= i < dictionary.len() && #[trigger] dictionary[i] == (codes[b], b);
            assert(dictionary[i].0 == word);
        }
    }
    assert forall|b: u8| codes.contains_key(b) implies symbol_of(
        dictionary,
        #[trigger] codes[b],
    ) == Some(b) by {
        let word = codes[b];
        assert(is_codeword(codes, word));
        assert(is_word(dictionary, word));
        crate::utils::logic::lemma_symbol_of(dictionary, word);
        lemma_symbol_found(dictionary, word);
        let found = symbol_of(dictionary, word)->0;
        let i = choose|i: int| 0 <= i < dictionary.len() && #[trigger] dictionary[i] == (word, found);
        assert(codes.contains_key(found) && codes[found] == word);
        if found != b {
            assert(codes[found].is_prefix_of(codes[b]));
        }
    }
}

/// Greedy decoding of the codewords of `source`, with bits behind them that
/// begin with no codeword, gives `source`.
pub proof fn lemma_decode_codewords(source: Seq<u8>, codes: Map<u8, Seq<u8>>, tail: Seq<u8>)
    requires
        sound_codes(codes),
        forall|i: int| 0 <= i < source.len() ==> codes.contains_key(#[trigger] source[i]),
        forall|h: int| 1 <= h <= tail.len() ==> !is_codeword(codes, #[trigger] tail.take(h)),
    ensures
        decode_from(code_stream(source, codes) + tail, dictionary_of(codes), 1) == (Decoding {
            symbols: source,
            rest: tail,
        }),
    decreases source.len(),
{
    let dictionary = dictionary_of(codes);
    lemma_dictionary_of(codes);
    if source.len() == 0 {
        assert(code_stream(source, codes) + tail =~= tail);
        assert forall|h: int| 1 <= h < tail.len() + 1 && h <= tail.len() implies !is_word(
            dictionary,
            tail.take(h),
        ) by {
            assert(!is_codeword(codes, tail.take(h)));
        }
        lemma_decode_skip(tail, dictionary, tail.len() as int + 1);
        assert(source =~= Seq::<u8>::empty());
    } else {
        let b = source[0];
        let rest = source.skip(1);
        let code = codes[b];
        assert(source =~= seq![b] + rest);
        lemma_code_stream_concat(seq![b], rest, codes);
        assert(seq![b].drop_last() =~= Seq::<u8>::empty());
        assert(code_stream(seq![b], codes) =~= code) by {
            assert(code_stream(Seq::<u8>::empty(), codes) =~= Seq::<u8>::empty());
            assert(code_of(codes, b) == code);
        }
        let stream = code_stream(source, codes) + tail;
        let behind = code_stream(rest, codes) + tail;
        assert(stream =~= code + behind);
        assert forall|h: int| 1 <= h < code.len() && h <= stream.len() implies !is_word(
            dictionary,
            stream.take(h),
        ) by {
            assert(stream.take(h) =~= code.take(h));
            if is_codeword(codes, code.take(h)) {
                let other = choose|other: u8|
                    codes.contains_key(other) && #[trigger] codes[other] == code.take(h);
                assert(codes[other].is_prefix_of(codes[b]));
            }
        }
        lemma_decode_skip(stream, dictionary, code.len() as int);
        assert(stream.take(code.len() as int) =~= code);
        assert(stream.skip(code.len() as int) =~= behind);
        assert(is_codeword(codes, code));
        assert forall|i: int| 0 <= i < rest.len() implies codes.contains_key(
            #[trigger] rest[i],
        ) by {
            assert(rest[i] == source[i + 1]);
        }
        lemma_decode_codewords(rest, codes, tail);
    }
}

/// The zero bits that the decoder finds behind the codewords: those that
/// fill the last byte and, with Hamming blocks, those that fill the last
/// payload and the payloads of the blocks that the zero bits of the last
/// byte make.
pub open spec fn trailing_zero_bits(stream: Seq<u8>, hamming_code_length: Option<u8>) -> nat {
    match hamming_code_length {
        Some(code_length) => {
            let k = code_length as nat;
            let blocks = padding(encode_package(stream, k).len()) / message_len(k);
            fill_len(stream.len(), k) + blocks * k
        },
        None => padding(stream.len()),
    }
}

/// The payload length as the decoder holds it.
pub open spec fn as_read(hamming_code_length: Option<u8>) -> Option<usize> {
    match hamming_code_length {
        Some(code_length) => Some(code_length as usize),
        None => None,
    }
}

/// What the decoder makes of the body of a stream of bits: it decodes the
/// stream with the zero bits behind it.
pub proof fn lemma_decode_encoded_body(
    stream: Seq<u8>,
    hamming_code_length: Option<u8>,
    dictionary: Seq<(Seq<u8>, u8)>,
)
    requires
        is_bits(stream),
        hamming_code_length matches Some(code_length) ==> code_length >= 1,
    ensures
        decode_body(body_bytes(stream, hamming_code_length), dictionary, as_read(hamming_code_length))
            == decode_from(
            stream + zero_bits(trailing_zero_bits(stream, hamming_code_length)),
            dictionary,
            1,
        ).symbols,
{
    let body = body_bytes(stream, hamming_code_length);
    let bits = bytes_to_bits(body);
    let sent = body_bits(stream, hamming_code_length);
    lemma_unpack_packed(sent);
    assert(normalize(normalize(sent)) =~= normalize(sent));
    match hamming_code_length {
        Some(code_length) => {
            let k = code_length as nat;
            let n = message_len(k);
            lemma_block_len_bound(k);
            vstd::arithmetic::power2::lemma_pow2_pos(parity_count(k));
            lemma_package_round_trip(stream, k);
            lemma_normalize_bits(sent);
            let pad = padding(sent.len());
            let blocks = pad / n;
            let all = Seq::<u8>::empty() + bits;
            assert(all =~= sent + zero_bits(pad));
            vstd::arithmetic::div_mod::lemma_fundamental_div_mod(pad as int, n as int);
            vstd::arithmetic::div_mod::lemma_mod_bound(pad as int, n as int);
            vstd::arithmetic::div_mod::lemma_mod_adds(sent.len() as int, pad as int, n as int);
            vstd::arithmetic::div_mod::lemma_small_mod(pad % n, n);
            assert(blocks * n == n * blocks) by (nonlinear_arith);
            assert(pad == blocks * n + pad % n);
            assert(all.len() % n == pad % n);
            let cut = whole_blocks(all.len(), n);
            assert(cut == sent.len() + blocks * n);
            assert(all.take(cut) =~= sent + zero_bits(blocks * n));
            vstd::arithmetic::div_mod::lemma_small_mod(0, n);
            lemma_decode_package_concat(sent, zero_bits(blocks * n), n);
            lemma_decode_zero_blocks(blocks, k);
            assert((stream + zero_bits(fill_len(stream.len(), k))) + zero_bits(blocks * k)
                =~= stream + zero_bits(trailing_zero_bits(stream, hamming_code_length)));
            assert(Seq::<u8>::empty() + decode_package(all.take(cut), n) =~= decode_package(
                all.take(cut),
                n,
            ));
        },
        None => {
            lemma_normalize_bits(stream);
            assert(Seq::<u8>::empty() + bits =~= bits);
        },
    }
}

/// The stream of the codewords of bits is bits.
pub proof fn lemma_code_stream_bits(source: Seq<u8>, codes: Map<u8, Seq<u8>>)
    requires
        forall|b: u8| codes.contains_key(b) ==> is_bits(#[trigger] codes[b]),
    ensures
        is_bits(code_stream(source, codes)),
    decreases source.len(),
{
    if source.len() > 0 {
        lemma_code_stream_bits(source.drop_last(), codes);
        if codes.contains_key(source.last()) {
            assert(is_bits(codes[source.last()]));
        }
    }
}

/// The code that a coder gives the bytes of a source is sound, and gives
/// each byte of the source a codeword.
pub proof fn lemma_codes_for(source: Seq<u8>, code_type: CodeType)
    requires
        0 < source.len() <= usize::MAX,
        forall|i: int| 0 <= i < source.len() ==> source[i] >= 32,
        code_type == CodeType::ShannonFano ==> exists|i: int, j: int|
            0 <= i < source.len() && 0 <= j < source.len() && source[i] != source[j],
    ensures
        sound_codes(codes_for(source, code_type)),
        forall|i: int|
            0 <= i < source.len() ==> codes_for(source, code_type).contains_key(
                #[trigger] source[i],
            ),
{
    let counts = byte_counts(source);
    let codes = codes_for(source, code_type);
    assert forall|b: u8| counts[b as int] != 0 <==> (b >= 32 && occurrences(source, b) > 0) by {
        lemma_occurrences_concat(source, Seq::empty(), b);
    }
    lemma_occurs(source, 0);
    assert(counts[source[0] as int] != 0);
    assert forall|i: int| 0 <= i < source.len() implies present(counts).contains(
        #[trigger] source[i],
    ) by {
        lemma_occurs(source, i);
    }
    match code_type {
        CodeType::Huffman => {
            lemma_huffman_code(counts);
            lemma_huffman_code_bits(counts);
            lemma_huffman_code_lengths(counts);
            assert forall|b: u8| codes.contains_key(b) implies b >= 32 by {
                assert(present(counts).contains(b));
            }
        },
        CodeType::ShannonFano => {
            let (i, j) = choose|i: int, j: int|
                0 <= i < source.len() && 0 <= j < source.len() && source[i] != source[j];
            lemma_occurs(source, i);
            lemma_occurs(source, j);
            lemma_ranking(counts, 256);
            let a = ranking(counts);
            let x = source[i];
            let y = source[j];
            assert(x < 256 && counts[x as int] != 0);
            assert(y < 256 && counts[y as int] != 0);
            let at_x = choose|t: int| 0 <= t < a.len() && (#[trigger] a[t]).0 == x;
            let at_y = choose|t: int| 0 <= t < a.len() && (#[trigger] a[t]).0 == y;
            assert(at_x != at_y);
            lemma_shannon_fano_code(counts);
            lemma_shannon_fano_code_bits(counts);
            lemma_shannon_fano_code_lengths(counts);
            assert forall|b: u8| codes.contains_key(b) implies b >= 32 by {
                assert(present(counts).contains(b));
            }
        },
    }
}

/// A header with an entry has five bytes or more.
pub proof fn lemma_entries_tail_len(codes: Map<u8, Seq<u8>>, from: nat, b: u8)
    requires
        sound_codes(codes),
        from <= b,
        codes.contains_key(b),
    ensures
        entries_tail(codes, from).len() >= 3,
    decreases 256 - from,
{
    if from < b {
        lemma_entries_tail_len(codes, from + 1, b);
    }
}

/// Decoding the archive of a source gives the source back. The source holds
/// a byte, and none below 32; for the Shannon-Fano coder it holds two
/// different bytes. The header is no longer than what is read for it, and
/// without Hamming blocks does not begin with their mark. No codeword is
/// made of zero bits only and as short as the zero bits that the decoder
/// finds behind the codewords.
pub proof fn lemma_archive_round_trip(
    source: Seq<u8>,
    code_type: CodeType,
    hamming_code_length: Option<u8>,
)
    requires
        0 < source.len() <= usize::MAX,
        forall|i: int| 0 <= i < source.len() ==> source[i] >= 32,
        code_type == CodeType::ShannonFano ==> exists|i: int, j: int|
            0 <= i < source.len() && 0 <= j < source.len() && source[i] != source[j],
        hamming_code_length matches Some(code_length) ==> code_length >= 1,
        header_bytes(codes_for(source, code_type), hamming_code_length).len() <= 2048,
        hamming_code_length is None ==> !has_hamming_key(
            header_bytes(codes_for(source, code_type), hamming_code_length),
        ),
        forall|j: nat|
            1 <= j <= trailing_zero_bits(
                code_stream(source, codes_for(source, code_type)),
                hamming_code_length,
            ) ==> !is_codeword(codes_for(source, code_type), #[trigger] zero_bits(j)),
    ensures
        decoded_archive(archive_bytes(source, code_type, hamming_code_length)) == Some(source),
{
    let codes = codes_for(source, code_type);
    let stream = code_stream(source, codes);
    let header = header_bytes(codes, hamming_code_length);
    let body = body_bytes(stream, hamming_code_length);
    let archive = archive_bytes(source, code_type, hamming_code_length);
    let window = header_window(archive);
    let dictionary = dictionary_of(codes);
    let entries = entries_bytes(codes, 256);
    let mark = hamming_bytes(hamming_code_length);
    lemma_codes_for(source, code_type);
    lemma_entries_split(codes, 0);
    assert(Seq::<u8>::empty() + entries_tail(codes, 0) =~= entries_tail(codes, 0));
    assert(entries == entries_tail(codes, 0));
    lemma_entries_tail_len(codes, 0, source[0]);
    assert(archive =~= header + body);
    assert(header =~= mark + entries + seq![0u8, 0u8]);
    assert forall|i: int| 0 <= i < header.len() implies window[i] == header[i] by {
        assert(archive[i] == header[i]);
    }
    // the header is read back
    assert(window.subrange(mark.len() as int, (mark.len() + entries.len() + 2) as int) =~= entries
        + seq![0u8, 0u8]) by {
        assert forall|i: int| 0 <= i < entries.len() + 2 implies window.subrange(
            mark.len() as int,
            (mark.len() + entries.len() + 2) as int,
        )[i] == (entries + seq![0u8, 0u8])[i] by {
            assert(window[i + mark.len()] == header[i + mark.len()]);
        }
    }
    lemma_parse_entries(window, codes, 0, mark.len() as int);
    match hamming_code_length {
        Some(code_length) => {
            assert(window.take(5) =~= seq![104u8, 109u8, 109u8, 99u8, 108u8]) by {
                assert forall|i: int| 0 <= i < 5 implies window.take(5)[i] == mark[i] by {
                    assert(window[i] == header[i]);
                }
            }
            assert(window[5] == header[5]);
        },
        None => {
            assert(window.take(5) =~= header.take(5));
        },
    }
    let read = HeaderView {
        dictionary,
        offset: header.len() as int,
        hamming_code_len: as_read(hamming_code_length),
    };
    assert(parse_header(window) == Some(read));
    assert(body_of(archive, header.len() as int) =~= body);
    // the body is decoded
    lemma_code_stream_bits(source, codes);
    lemma_decode_encoded_body(stream, hamming_code_length, dictionary);
    let tail = zero_bits(trailing_zero_bits(stream, hamming_code_length));
    assert forall|h: int| 1 <= h <= tail.len() implies !is_codeword(
        codes,
        #[trigger] tail.take(h),
    ) by {
        assert(tail.take(h) =~= zero_bits(h as nat));
    }
    lemma_decode_codewords(source, codes, tail);
}

} // verus!
