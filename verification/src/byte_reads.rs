use vstd::prelude::*;

use crate::message_processing::{
    default_escape, default_marker, spec_received_text, spec_split_client_input, utf8_len,
};
use crate::properties::{
    deliver_reads, framed, is_ascii_text, law_reads_in_pieces_deliver_messages,
    lemma_chars_before_byte_ascii, lemma_framed_ascii, streamable,
};

verus! {

broadcast use vstd::seq::group_seq_axioms;

/// A read of ASCII bytes gives every byte read, in order, as the character of
/// the same code, whatever the length of the read.
pub proof fn law_ascii_read_kept_whole(bytes: Seq<u8>)
    requires
        forall|i: int| 0 <= i < bytes.len() ==> #[trigger] bytes[i] < 0x80,
    ensures
        spec_received_text(bytes) == Some(Seq::new(bytes.len(), |i: int| bytes[i] as char)),
{
    let text = Seq::new(bytes.len(), |i: int| bytes[i] as char);
    assert(text == crate::message_processing::latin1_chars(bytes));
    assert(is_ascii_text(text)) by {
        assert forall|i: int| 0 <= i < text.len() implies '\0' <= #[trigger] text[i] <= '\u{7f}' by {
            assert(bytes[i] < 0x80);
        }
    }
    lemma_chars_before_byte_ascii(text, bytes.len() as int);
    assert(text.take(bytes.len() as int) =~= text);
}

/// What a read gives is the characters of the same codes as the first bytes
/// read, in order, and exactly as long in UTF-8 as the number of bytes read.
pub proof fn law_received_text_matches_bytes(bytes: Seq<u8>)
    ensures
        spec_received_text(bytes) matches Some(t) ==> {
            &&& t.len() <= bytes.len()
            &&& forall|i: int| 0 <= i < t.len() ==> #[trigger] t[i] == bytes[i] as char
            &&& utf8_len(t) == bytes.len()
        },
{
    let text = crate::message_processing::latin1_chars(bytes);
    crate::message_processing::lemma_chars_before_byte(text, bytes.len() as int);
}

/// The messages delivered by reading `chunks` of bytes one after another into
/// a client buffer that starts as `buffer`, and the buffer left at the end;
/// `None` when a read cannot be turned into text or split.
pub open spec fn deliver_byte_reads(buffer: Seq<char>, chunks: Seq<Seq<u8>>) -> Option<
    (Seq<Seq<char>>, Seq<char>),
>
    decreases chunks.len(),
{
    if chunks.len() == 0 {
        Some((Seq::empty(), buffer))
    } else {
        match spec_received_text(chunks[0]) {
            Some(text) => match spec_split_client_input(
                buffer,
                text,
                default_marker(),
                default_escape(),
            ) {
                Some((ms, rest)) => match deliver_byte_reads(rest, chunks.drop_first()) {
                    Some((later, left)) => Some((ms + later, left)),
                    None => None,
                },
                None => None,
            },
            None => None,
        }
    }
}

/// The bytes taken as characters of the same codes.
pub open spec fn byte_chars(bytes: Seq<u8>) -> Seq<char> {
    Seq::new(bytes.len(), |i: int| bytes[i] as char)
}

/// Reading ASCII byte chunks delivers what reading the same chunks as
/// characters delivers.
proof fn lemma_byte_reads_as_chars(buffer: Seq<char>, chunks: Seq<Seq<u8>>)
    requires
        forall|k: int, i: int|
            0 <= k < chunks.len() && 0 <= i < chunks[k].len() ==> #[trigger] chunks[k][i] < 0x80,
    ensures
        deliver_byte_reads(buffer, chunks) == deliver_reads(
            buffer,
            chunks.map_values(|c: Seq<u8>| byte_chars(c)),
        ),
    decreases chunks.len(),
{
    let cc = chunks.map_values(|c: Seq<u8>| byte_chars(c));
    if chunks.len() > 0 {
        let c0 = chunks[0];
        assert forall|i: int| 0 <= i < c0.len() implies #[trigger] c0[i] < 0x80 by {
            assert(chunks[0][i] < 0x80);
        }
        law_ascii_read_kept_whole(c0);
        assert(cc[0] == byte_chars(c0));
        let rest = chunks.drop_first();
        assert forall|k: int, i: int|
            0 <= k < rest.len() && 0 <= i < rest[k].len() implies #[trigger] rest[k][i] < 0x80 by {
            assert(rest[k] == chunks[k + 1]);
            assert(chunks[k + 1][i] < 0x80);
        }
        lemma_byte_reads_as_chars(buffer, rest);
        assert(cc.drop_first() =~= rest.map_values(|c: Seq<u8>| byte_chars(c)));
        match spec_split_client_input(buffer, cc[0], default_marker(), default_escape()) {
            Some((ms, r)) => {
                lemma_byte_reads_as_chars(r, rest);
            },
            None => {},
        }
    }
}

/// Flattening chunks of bytes and taking the bytes as characters is taking
/// each chunk as characters and flattening.
proof fn lemma_byte_chars_flatten(chunks: Seq<Seq<u8>>)
    ensures
        byte_chars(chunks.flatten()) == chunks.map_values(|c: Seq<u8>| byte_chars(c)).flatten(),
    decreases chunks.len(),
{
    if chunks.len() > 0 {
        let rest = chunks.drop_first();
        lemma_byte_chars_flatten(rest);
        let cc = chunks.map_values(|c: Seq<u8>| byte_chars(c));
        assert(cc.drop_first() =~= rest.map_values(|c: Seq<u8>| byte_chars(c)));
        assert(chunks.flatten() == chunks[0] + rest.flatten());
        assert(cc.flatten() == cc[0] + cc.drop_first().flatten());
        assert(byte_chars(chunks[0] + rest.flatten()) =~= byte_chars(chunks[0]) + byte_chars(
            rest.flatten(),
        ));
    } else {
        assert(byte_chars(chunks.flatten()) =~= Seq::<char>::empty());
    }
}

/// Framed ASCII messages received as bytes, in reads of any sizes, are
/// delivered whole, each once and in order, with nothing left buffered: as
/// for text read in pieces, every byte of every read counts. Holds for ASCII
/// messages that do not end with a backslash, whose framed text fits in
/// memory.
pub proof fn law_byte_reads_deliver_messages(messages: Seq<Seq<char>>, chunks: Seq<Seq<u8>>)
    requires
        forall|i: int| 0 <= i < messages.len() ==> streamable(#[trigger] messages[i]),
        byte_chars(chunks.flatten()) == framed(messages),
        framed(messages).len() <= usize::MAX,
    ensures
        deliver_byte_reads(Seq::empty(), chunks) == Some((messages, Seq::<char>::empty())),
{
    let cc = chunks.map_values(|c: Seq<u8>| byte_chars(c));
    lemma_byte_chars_flatten(chunks);
    assert forall|i: int| 0 <= i < messages.len() implies is_ascii_text(#[trigger] messages[i]) by {
        assert(streamable(messages[i]));
    }
    lemma_framed_ascii(messages);
    let f = chunks.flatten();
    assert forall|k: int, i: int|
        0 <= k < chunks.len() && 0 <= i < chunks[k].len() implies #[trigger] chunks[k][i] < 0x80 by {
        lemma_flatten_index(chunks, k, i);
        let p = flatten_offset(chunks, k) + i;
        assert(f[p] == chunks[k][i]);
        assert(byte_chars(f)[p] == framed(messages)[p]);
    }
    lemma_byte_reads_as_chars(Seq::empty(), chunks);
    law_reads_in_pieces_deliver_messages(messages, cc);
}

/// Where chunk `k` starts in the flattened chunks.
pub open spec fn flatten_offset(chunks: Seq<Seq<u8>>, k: int) -> int
    decreases k,
{
    if k <= 0 {
        0
    } else {
        flatten_offset(chunks, k - 1) + chunks[k - 1].len()
    }
}

/// Byte `i` of chunk `k` sits at its offset in the flattened chunks.
proof fn lemma_flatten_index(chunks: Seq<Seq<u8>>, k: int, i: int)
    requires
        0 <= k < chunks.len(),
        0 <= i < chunks[k].len(),
    ensures
        0 <= flatten_offset(chunks, k) + i < chunks.flatten().len(),
        chunks.flatten()[flatten_offset(chunks, k) + i] == chunks[k][i],
    decreases k,
{
    let rest = chunks.drop_first();
    assert(chunks.flatten() == chunks[0] + rest.flatten());
    if k == 0 {
    } else {
        assert(rest[k - 1] == chunks[k]);
        lemma_flatten_index(rest, k - 1, i);
        lemma_flatten_offset_shift(chunks, k);
    }
}

/// Offsets after the first chunk are shifted by its length.
proof fn lemma_flatten_offset_shift(chunks: Seq<Seq<u8>>, k: int)
    requires
        1 <= k <= chunks.len(),
    ensures
        flatten_offset(chunks, k) == chunks[0].len() + flatten_offset(chunks.drop_first(), k - 1),
    decreases k,
{
    assert(flatten_offset(chunks, 0) == 0);
    assert(flatten_offset(chunks.drop_first(), 0) == 0);
    if k > 1 {
        lemma_flatten_offset_shift(chunks, k - 1);
        assert(chunks.drop_first()[k - 2] == chunks[k - 1]);
        assert(flatten_offset(chunks, k) == flatten_offset(chunks, k - 1) + chunks[k - 1].len());
        assert(flatten_offset(chunks.drop_first(), k - 1) == flatten_offset(
            chunks.drop_first(),
            k - 2,
        ) + chunks.drop_first()[k - 2].len());
    }
}

} // verus!
