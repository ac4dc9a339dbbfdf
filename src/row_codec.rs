use vstd::prelude::*;

use vstd::utf8::{
    encode_scalar, encode_utf8, last_continuation_byte, leading_byte_width_1, leading_byte_width_2,
    leading_byte_width_3, leading_byte_width_4, second_last_continuation_byte,
    third_last_continuation_byte,
};

use crate::error::DbError;
use crate::escape::{
    escape, escape_chunk, lemma_escape_shape, lemma_unescape_escape, unescape, unescape_chunk,
};
use crate::field_codec::{
    decode_field, encode_field, field_chunk, field_text, Cipher, PLAIN_DELIMITER, TAG_LEN,
};
use crate::text::{
    byte_runs, join_bytes, join_with, lemma_split_join, split_bytes, split_on, texts,
};

verus! {

/// The field value that asks for the previous content of its position.
pub open spec fn sentinel() -> Seq<char> {
    seq!['|', 'o']
}

/// The fields of a write after the sentinel is resolved: a field equal to
/// `|o` takes the previous row's field at its position, where the row existed
/// and had a field there; otherwise it stands as written.
pub open spec fn resolve(fields: Seq<Seq<char>>, previous: Option<Seq<Seq<char>>>) -> Seq<Seq<char>> {
    Seq::new(
        fields.len(),
        |i: int|
            match previous {
                Some(p) => if fields[i] == sentinel() && i < p.len() {
                    p[i]
                } else {
                    fields[i]
                },
                None => fields[i],
            },
    )
}

/// A field chunk as it stands in the row file: escaped in the encrypted mode,
/// where a sealed chunk may hold the delimiter byte; as it is in the plain mode,
/// where a field holds no newline.
pub open spec fn stored_chunk(c: Cipher, chunk: Seq<u8>) -> Seq<u8> {
    match c {
        Cipher::Plain => chunk,
        Cipher::Aes128Gcm(_) => escape(chunk),
    }
}

/// The field chunk that a run of the row file stands for.
pub open spec fn chunk_of_run(c: Cipher, run: Seq<u8>) -> Option<Seq<u8>> {
    match c {
        Cipher::Plain => Some(run),
        Cipher::Aes128Gcm(_) => unescape(run),
    }
}

/// The stored chunks of the fields of row `r` in table `t`, in order, or
/// `None` if one cannot be encoded.
pub open spec fn row_chunks(c: Cipher, t: nat, r: nat, fields: Seq<Seq<char>>) -> Option<Seq<Seq<u8>>>
    decreases fields.len(),
{
    if fields.len() == 0 {
        Some(Seq::empty())
    } else {
        match row_chunks(c, t, r, fields.drop_last()) {
            Some(done) => match field_chunk(c, t, r, (fields.len() - 1) as nat, fields.last()) {
                Some(b) => Some(done.push(stored_chunk(c, b))),
                None => None,
            },
            None => None,
        }
    }
}

/// The bytes of a row file holding `fields`: their stored chunks joined by the delimiter.
pub open spec fn frame_spec(c: Cipher, t: nat, r: nat, fields: Seq<Seq<char>>) -> Option<Seq<u8>> {
    match row_chunks(c, t, r, fields) {
        Some(ch) => Some(join_with(ch, c.delimiter_spec())),
        None => None,
    }
}

/// The texts of the non-empty runs, each unescaped and decoded at the position
/// of its run, or `None` if one does not decode.
pub open spec fn decode_runs(c: Cipher, t: nat, r: nat, runs: Seq<Seq<u8>>) -> Option<Seq<Seq<char>>>
    decreases runs.len(),
{
    if runs.len() == 0 {
        Some(Seq::empty())
    } else {
        match decode_runs(c, t, r, runs.drop_last()) {
            Some(done) => if runs.last().len() == 0 {
                Some(done)
            } else {
                match chunk_of_run(c, runs.last()) {
                    Some(ch) => match field_text(c, t, r, (runs.len() - 1) as nat, ch) {
                        Some(s) => Some(done.push(s)),
                        None => None,
                    },
                    None => None,
                }
            },
            None => None,
        }
    }
}

/// The fields of a row file: its bytes cut at the delimiter, empty runs skipped.
pub open spec fn parse_spec(c: Cipher, t: nat, r: nat, raw: Seq<u8>) -> Option<Seq<Seq<char>>> {
    decode_runs(c, t, r, split_on(raw, c.delimiter_spec()))
}

/// `fields` come back unchanged from a row file: there is one at least, none
/// is empty or holds a newline, and each can be encoded at its position.
pub open spec fn survives_storage(c: Cipher, t: nat, r: nat, fields: Seq<Seq<char>>) -> bool {
    &&& fields.len() >= 1
    &&& forall|i: int|
        0 <= i < fields.len() ==> {
            &&& (#[trigger] fields[i]).len() > 0
            &&& !fields[i].contains('\n')
            &&& field_chunk(c, t, r, i as nat, fields[i]) is Some
        }
}

pub proof fn lemma_row_chunks(c: Cipher, t: nat, r: nat, fields: Seq<Seq<char>>)
    requires
        row_chunks(c, t, r, fields) is Some,
    ensures
        row_chunks(c, t, r, fields)->0.len() == fields.len(),
        forall|i: int|
            0 <= i < fields.len() ==> field_chunk(c, t, r, i as nat, #[trigger] fields[i]) is Some
                && row_chunks(c, t, r, fields)->0[i] == stored_chunk(
                c,
                field_chunk(c, t, r, i as nat, fields[i])->0,
            ),
    decreases fields.len(),
{
    if fields.len() > 0 {
        let init = fields.drop_last();
        lemma_row_chunks(c, t, r, init);
        assert forall|i: int| 0 <= i < fields.len() implies field_chunk(
            c,
            t,
            r,
            i as nat,
            #[trigger] fields[i],
        ) is Some && row_chunks(c, t, r, fields)->0[i] == stored_chunk(
            c,
            field_chunk(c, t, r, i as nat, fields[i])->0,
        ) by {
            if i < init.len() {
                assert(init[i] == fields[i]);
            }
        }
    }
}

/// Each stored chunk of fields that survive storage is non-empty, free of
/// the delimiter, and stands for the field's chunk.
proof fn lemma_survivor_chunks(c: Cipher, t: nat, r: nat, fields: Seq<Seq<char>>)
    requires
        survives_storage(c, t, r, fields),
    ensures
        row_chunks(c, t, r, fields) is Some,
        forall|i: int|
            0 <= i < fields.len() ==> {
                let ch = #[trigger] row_chunks(c, t, r, fields)->0[i];
                &&& ch.len() > 0
                &&& !ch.contains(c.delimiter_spec())
                &&& chunk_of_run(c, ch) == field_chunk(c, t, r, i as nat, fields[i])
            },
{
    lemma_row_chunks_all(c, t, r, fields);
    lemma_row_chunks(c, t, r, fields);
    assert forall|i: int| 0 <= i < fields.len() implies {
        let ch = #[trigger] row_chunks(c, t, r, fields)->0[i];
        &&& ch.len() > 0
        &&& !ch.contains(c.delimiter_spec())
        &&& chunk_of_run(c, ch) == field_chunk(c, t, r, i as nat, fields[i])
    } by {
        let fc = field_chunk(c, t, r, i as nat, fields[i])->0;
        assert(fields[i].len() > 0 && !fields[i].contains('\n'));
        match c {
            Cipher::Plain => {
                lemma_utf8_newline_free(fields[i]);
            },
            Cipher::Aes128Gcm(_) => {
                assert(fc.len() >= TAG_LEN);
                lemma_escape_shape(fc);
                lemma_unescape_escape(fc);
            },
        }
    }
}

proof fn lemma_row_chunks_all(c: Cipher, t: nat, r: nat, fields: Seq<Seq<char>>)
    requires
        forall|i: int| 0 <= i < fields.len() ==> field_chunk(c, t, r, i as nat, #[trigger] fields[i]) is Some,
    ensures
        row_chunks(c, t, r, fields) is Some,
    decreases fields.len(),
{
    if fields.len() > 0 {
        let init = fields.drop_last();
        assert forall|i: int| 0 <= i < init.len() implies field_chunk(c, t, r, i as nat, #[trigger] init[i]) is Some by {
            assert(init[i] == fields[i]);
        }
        lemma_row_chunks_all(c, t, r, init);
        assert(fields[fields.len() - 1] == fields.last());
    }
}

/// Resolves the sentinel of each field against the previous row, as `resolve` says.
pub fn resolve_fields(fields: Vec<String>, previous: Option<&Vec<String>>) -> (r: Vec<String>)
    ensures
        texts(r@) == resolve(
            texts(fields@),
            match previous {
                Some(p) => Some(texts(p@)),
                None => None,
            },
        ),
{
    let ghost prev = match previous {
        Some(p) => Some(texts(p@)),
        None => None,
    };
    let keep = String::from_str("|o");
    proof {
        reveal_strlit("|o");
        assert(keep@ =~= sentinel());
    }
    let mut out: Vec<String> = Vec::new();
    let mut i: usize = 0;
    while i < fields.len()
        invariant
            i <= fields.len(),
            keep@ == sentinel(),
            prev == match previous {
                Some(p) => Some(texts(p@)),
                None => None,
            },
            out.len() == i,
            forall|j: int| 0 <= j < i ==> #[trigger] out[j]@ == resolve(texts(fields@), prev)[j],
        decreases fields.len() - i,
    {
        let f = fields[i].clone();
        let v = match previous {
            Some(p) => if fields[i] == keep && i < p.len() {
                p[i].clone()
            } else {
                f
            },
            None => f,
        };
        out.push(v);
        i = i + 1;
    }
    proof {
        assert(texts(out@) =~= resolve(texts(fields@), prev));
    }
    out
}

/// The bytes of the row file holding `fields`: each field encoded at its
/// position and, in the encrypted mode, escaped; the chunks joined by the delimiter.
pub fn frame_fields(c: &Cipher, t: usize, r: usize, fields: &Vec<String>) -> (res: Result<
    Vec<u8>,
    DbError,
>)
    ensures
        match res {
            Ok(b) => frame_spec(*c, t as nat, r as nat, texts(fields@)) == Some(b@),
            Err(e) => e == DbError::CryptoError && frame_spec(
                *c,
                t as nat,
                r as nat,
                texts(fields@),
            ) is None,
        },
{
    let ghost v = texts(fields@);
    let mut chunks: Vec<Vec<u8>> = Vec::new();
    let mut i: usize = 0;
    while i < fields.len()
        invariant
            i <= fields.len(),
            v == texts(fields@),
            row_chunks(*c, t as nat, r as nat, v.take(i as int)) == Some(byte_runs(chunks@)),
        decreases fields.len() - i,
    {
        proof {
            assert(v.take(i + 1).drop_last() =~= v.take(i as int));
            assert(v.take(i + 1).last() == fields[i as int]@);
        }
        match encode_field(c, t, r, i, fields[i].as_str()) {
            Ok(b) => {
                let stored = match c {
                    Cipher::Plain => b,
                    Cipher::Aes128Gcm(_) => escape_chunk(&b),
                };
                chunks.push(stored);
                proof {
                    assert(byte_runs(chunks@) =~= byte_runs(chunks@.drop_last()).push(
                        chunks@.last()@,
                    ));
                }
            },
            Err(e) => {
                proof {
                    assert(row_chunks(*c, t as nat, r as nat, v.take(i + 1)) is None);
                    lemma_prefix_fails(*c, t as nat, r as nat, v, i + 1);
                }
                return Err(e);
            },
        }
        i = i + 1;
    }
    proof {
        assert(v.take(fields.len() as int) =~= v);
    }
    Ok(join_bytes(&chunks, c.delimiter()))
}

proof fn lemma_prefix_fails(c: Cipher, t: nat, r: nat, v: Seq<Seq<char>>, k: int)
    requires
        0 <= k <= v.len(),
        row_chunks(c, t, r, v.take(k)) is None,
    ensures
        row_chunks(c, t, r, v) is None,
    decreases v.len() - k,
{
    if k < v.len() {
        assert(v.take(k + 1).drop_last() =~= v.take(k));
        lemma_prefix_fails(c, t, r, v, k + 1);
    } else {
        assert(v.take(k) =~= v);
    }
}

proof fn lemma_decode_prefix_fails(c: Cipher, t: nat, r: nat, runs: Seq<Seq<u8>>, k: int)
    requires
        0 <= k <= runs.len(),
        decode_runs(c, t, r, runs.take(k)) is None,
    ensures
        decode_runs(c, t, r, runs) is None,
    decreases runs.len() - k,
{
    if k < runs.len() {
        assert(runs.take(k + 1).drop_last() =~= runs.take(k));
        lemma_decode_prefix_fails(c, t, r, runs, k + 1);
    } else {
        assert(runs.take(k) =~= runs);
    }
}

/// When `fields` survive storage, the runs of their frame are their stored chunks.
pub proof fn lemma_frame_runs(c: Cipher, t: nat, r: nat, fields: Seq<Seq<char>>)
    requires
        survives_storage(c, t, r, fields),
    ensures
        row_chunks(c, t, r, fields) is Some,
        frame_spec(c, t, r, fields) is Some,
        split_on(frame_spec(c, t, r, fields)->0, c.delimiter_spec()) == row_chunks(
            c,
            t,
            r,
            fields,
        )->0,
{
    lemma_survivor_chunks(c, t, r, fields);
    lemma_row_chunks(c, t, r, fields);
    let ch = row_chunks(c, t, r, fields)->0;
    assert forall|i: int| 0 <= i < ch.len() implies !(#[trigger] ch[i]).contains(
        c.delimiter_spec(),
    ) by {}
    lemma_split_join(ch, c.delimiter_spec());
}

/// The fields of a row file: its bytes cut at the delimiter, each non-empty
/// run decoded at the position of its run. Bytes that a write of `v` produced
/// read back as `v`, when `v` survives storage.
pub fn parse_fields(c: &Cipher, t: usize, r: usize, raw: &Vec<u8>) -> (res: Result<
    Vec<String>,
    DbError,
>)
    ensures
        match res {
            Ok(v) => parse_spec(*c, t as nat, r as nat, raw@) == Some(texts(v@)),
            Err(e) => e == DbError::CryptoError && parse_spec(
                *c,
                t as nat,
                r as nat,
                raw@,
            ) is None,
        },
        forall|v: Seq<Seq<char>>|
            survives_storage(*c, t as nat, r as nat, v) && #[trigger] frame_spec(
                *c,
                t as nat,
                r as nat,
                v,
            ) == Some(raw@) ==> res is Ok && texts(res->Ok_0@) == v,
{
    let d = c.delimiter();
    let runs = split_bytes(raw, d);
    let ghost rs = byte_runs(runs@);
    proof {
        assert forall|v: Seq<Seq<char>>|
            survives_storage(*c, t as nat, r as nat, v) && #[trigger] frame_spec(
                *c,
                t as nat,
                r as nat,
                v,
            ) == Some(raw@) implies rs == row_chunks(*c, t as nat, r as nat, v)->0 by {
            lemma_frame_runs(*c, t as nat, r as nat, v);
            lemma_row_chunks(*c, t as nat, r as nat, v);
        }
    }
    let mut out: Vec<String> = Vec::new();
    let mut i: usize = 0;
    while i < runs.len()
        invariant
            i <= runs.len(),
            rs == byte_runs(runs@),
            rs == split_on(raw@, d),
            d == c.delimiter_spec(),
            decode_runs(*c, t as nat, r as nat, rs.take(i as int)) == Some(texts(out@)),
            forall|v: Seq<Seq<char>>|
                survives_storage(*c, t as nat, r as nat, v) && #[trigger] frame_spec(
                    *c,
                    t as nat,
                    r as nat,
                    v,
                ) == Some(raw@) ==> rs == row_chunks(*c, t as nat, r as nat, v)->0 && texts(out@)
                    == v.take(i as int),
        decreases runs.len() - i,
    {
        proof {
            assert(rs.take(i + 1).drop_last() =~= rs.take(i as int));
            assert(rs.take(i + 1).last() == runs[i as int]@);
        }
        if runs[i].len() > 0 {
            let ghost run = runs[i as int]@;
            let decoded: Result<String, DbError> = match c {
                Cipher::Plain => decode_field(c, t, r, i, runs[i].as_slice()),
                Cipher::Aes128Gcm(_) => match unescape_chunk(&runs[i]) {
                    Some(ch) => decode_field(c, t, r, i, ch.as_slice()),
                    None => Err(DbError::CryptoError),
                },
            };
            proof {
                assert(match decoded {
                    Ok(s) => chunk_of_run(*c, run) is Some && field_text(
                        *c,
                        t as nat,
                        r as nat,
                        i as nat,
                        chunk_of_run(*c, run)->0,
                    ) == Some(s@),
                    Err(e) => e == DbError::CryptoError && (chunk_of_run(*c, run) is None
                        || field_text(
                        *c,
                        t as nat,
                        r as nat,
                        i as nat,
                        chunk_of_run(*c, run)->0,
                    ) is None),
                });
                assert(forall|x: Seq<char>|
                    chunk_of_run(*c, run) is Some && #[trigger] field_chunk(
                        *c,
                        t as nat,
                        r as nat,
                        i as nat,
                        x,
                    ) == chunk_of_run(*c, run) ==> decoded is Ok && decoded->Ok_0@ == x);
            }
            match decoded {
                Ok(s) => {
                    out.push(s);
                    proof {
                        assert(texts(out@) =~= texts(out@.drop_last()).push(s@));
                        assert forall|v: Seq<Seq<char>>|
                            survives_storage(*c, t as nat, r as nat, v) && #[trigger] frame_spec(
                                *c,
                                t as nat,
                                r as nat,
                                v,
                            ) == Some(raw@) implies texts(out@) == v.take(i + 1) by {
                            lemma_survivor_chunks(*c, t as nat, r as nat, v);
                            lemma_row_chunks(*c, t as nat, r as nat, v);
                            assert(row_chunks(*c, t as nat, r as nat, v)->0[i as int] == run);
                            assert(v.take(i + 1) =~= v.take(i as int).push(v[i as int]));
                        }
                    }
                },
                Err(e) => {
                    proof {
                        lemma_decode_prefix_fails(*c, t as nat, r as nat, rs, i + 1);
                        assert forall|v: Seq<Seq<char>>|
                            survives_storage(*c, t as nat, r as nat, v) && #[trigger] frame_spec(
                                *c,
                                t as nat,
                                r as nat,
                                v,
                            ) == Some(raw@) implies false by {
                            lemma_survivor_chunks(*c, t as nat, r as nat, v);
                            lemma_row_chunks(*c, t as nat, r as nat, v);
                            assert(row_chunks(*c, t as nat, r as nat, v)->0[i as int] == run);
                        }
                    }
                    return Err(e);
                },
            }
        } else {
            proof {
                assert forall|v: Seq<Seq<char>>|
                    survives_storage(*c, t as nat, r as nat, v) && #[trigger] frame_spec(
                        *c,
                        t as nat,
                        r as nat,
                        v,
                    ) == Some(raw@) implies false by {
                    lemma_survivor_chunks(*c, t as nat, r as nat, v);
                    lemma_row_chunks(*c, t as nat, r as nat, v);
                    assert(row_chunks(*c, t as nat, r as nat, v)->0[i as int] == runs[i as int]@);
                }
            }
        }
        i = i + 1;
    }
    proof {
        assert(rs.take(runs.len() as int) =~= rs);
        assert forall|v: Seq<Seq<char>>|
            survives_storage(*c, t as nat, r as nat, v) && #[trigger] frame_spec(
                *c,
                t as nat,
                r as nat,
                v,
            ) == Some(raw@) implies texts(out@) == v by {
            lemma_row_chunks(*c, t as nat, r as nat, v);
            lemma_frame_runs(*c, t as nat, r as nat, v);
            assert(v.take(v.len() as int) =~= v);
        }
    }
    Ok(out)
}

proof fn lemma_byte_facts(c: u32)
    requires
        c != 10,
    ensures
        c <= 0x7f ==> leading_byte_width_1(c) != 10,
        leading_byte_width_2(c) != 10,
        leading_byte_width_3(c) != 10,
        leading_byte_width_4(c) != 10,
        last_continuation_byte(c) != 10,
        second_last_continuation_byte(c) != 10,
        third_last_continuation_byte(c) != 10,
{
    assert(c <= 0x7f ==> (c & 0x7f) as u8 != 10) by (bit_vector)
        requires
            c != 10,
    ;
    assert((0xC0 | ((c >> 6) & 0x1F) as u8) != 10u8) by (bit_vector);
    assert((0xE0 | ((c >> 12) & 0x0F) as u8) != 10u8) by (bit_vector);
    assert((0xF0 | ((c >> 18) & 0x7) as u8) != 10u8) by (bit_vector);
    assert((0x80 | (c & 0x3F) as u8) != 10u8) by (bit_vector);
    assert((0x80 | ((c >> 6) & 0x3F) as u8) != 10u8) by (bit_vector);
    assert((0x80 | ((c >> 12) & 0x3F) as u8) != 10u8) by (bit_vector);
}

/// A text without a newline encodes to UTF-8 without the byte 10; a
/// non-empty text encodes to non-empty bytes.
pub proof fn lemma_utf8_newline_free(s: Seq<char>)
    requires
        !s.contains('\n'),
    ensures
        !encode_utf8(s).contains(PLAIN_DELIMITER),
        s.len() > 0 ==> encode_utf8(s).len() > 0,
    decreases s.len(),
{
    if s.len() > 0 {
        let rest = s.drop_first();
        assert(!rest.contains('\n')) by {
            if rest.contains('\n') {
                let k = choose|k: int| 0 <= k < rest.len() && rest[k] == '\n';
                assert(s[k + 1] == '\n');
            }
        }
        lemma_utf8_newline_free(rest);
        let c = s[0] as u32;
        assert(s[0] != '\n');
        assert(c != 10) by {
            vstd::utf8::char_u32_cast(s[0], c);
        }
        lemma_byte_facts(c);
        let head = encode_scalar(c);
        assert(!head.contains(PLAIN_DELIMITER)) by {
            if head.contains(PLAIN_DELIMITER) {
                let k = choose|k: int| 0 <= k < head.len() && head[k] == PLAIN_DELIMITER;
            }
        }
        assert(head.len() > 0);
        let all = encode_utf8(s);
        assert(all == head + encode_utf8(rest));
        if all.contains(PLAIN_DELIMITER) {
            let k = choose|k: int| 0 <= k < all.len() && all[k] == PLAIN_DELIMITER;
            if k < head.len() {
                assert(head[k] == PLAIN_DELIMITER);
            } else {
                assert(encode_utf8(rest)[k - head.len()] == PLAIN_DELIMITER);
            }
        }
    }
}

} // verus!
