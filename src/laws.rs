use vstd::prelude::*;
use vstd::utf8::encode_utf8;

use crate::error::DbError;
use crate::field_codec::{field_chunk, field_text, nonce_of, sealed, Cipher};
use crate::index::{fields_map, lemma_with_row, with_row, without_content, without_row};
use crate::row_codec::{lemma_row_chunks, lemma_utf8_newline_free, decode_runs, frame_spec, parse_spec, resolve, row_chunks, sentinel, survives_storage};
use crate::table::{content_without, create_outcome, previous_fields, write_fields, write_spec};
use crate::text::{join_with, lemma_split_join};

verus! {

/// A table whose creation succeeded occupies its location, and creating it
/// again is refused with `AlreadyExists`.
pub proof fn lemma_create_twice(path: Seq<char>, occupied_before: bool)
    requires
        create_outcome(path, occupied_before) is Ok,
    ensures
        create_outcome(path, true) == Err::<(), DbError>(DbError::AlreadyExists),
{
}

/// Writing the fields `v`, one per line, stores exactly `v`: when the write
/// succeeds, its bytes are the frame of `v` and `v` survives storage, so
/// `Table::read` of those bytes gives back `v`, in either mode. This holds for
/// fields that are not empty and hold no newline, where the row is new or no
/// field is the sentinel `|o`. A write fails only when the row's present file
/// does not decode, or a field cannot be sealed.
pub proof fn lemma_write_then_read(c: Cipher, t: nat, r: nat, v: Seq<Seq<char>>, stored: Option<Seq<u8>>)
    requires
        v.len() >= 1,
        forall|i: int| 0 <= i < v.len() ==> (#[trigger] v[i]).len() > 0 && !v[i].contains('\n'),
        stored is None || forall|i: int| 0 <= i < v.len() ==> #[trigger] v[i] != sentinel(),
    ensures
        write_fields(c, t, r, join_with(v, '\n'), stored) == v,
        match write_spec(c, t, r, join_with(v, '\n'), stored) {
            Ok(b) => frame_spec(c, t, r, v) == Some(b) && survives_storage(c, t, r, v),
            Err(e) => e == DbError::CryptoError,
        },
{
    lemma_split_join(v, '\n');
    let prev = match previous_fields(c, t, r, stored) {
        Ok(p) => p,
        Err(_) => None,
    };
    assert(resolve(v, prev) =~= v);
    lemma_join_nonempty(v, '\n');
    if frame_spec(c, t, r, v) is Some {
        lemma_row_chunks(c, t, r, v);
    }
}

proof fn lemma_join_nonempty<A>(v: Seq<Seq<A>>, d: A)
    requires
        v.len() >= 1,
        v[0].len() > 0,
    ensures
        join_with(v, d).len() > 0,
    decreases v.len(),
{
    if v.len() > 1 {
        lemma_join_nonempty(v.drop_last(), d);
    }
}

/// Deleting field `p` of a row holding `f` (two fields at least, none empty
/// or holding a newline, none but the deleted one the sentinel `|o`) rewrites
/// the row with the other `n - 1` fields: those before `p` in place, those
/// after it one position down. The row's new mapping is that of these fields,
/// so the deleted content is absent from it unless another field holds it.
/// When the rewrite succeeds, its bytes are the frame of those fields and they
/// survive storage, so `Table::read` gives them back in either mode.
pub proof fn lemma_field_delete(
    c: Cipher,
    t: nat,
    r: nat,
    f: Seq<Seq<char>>,
    p: int,
    stored: Seq<u8>,
    v: Seq<Seq<Map<Seq<char>, usize>>>,
)
    requires
        previous_fields(c, t, r, Some(stored)) == Ok::<Option<Seq<Seq<char>>>, DbError>(Some(f)),
        0 <= p < f.len(),
        f.len() >= 2,
        forall|i: int| 0 <= i < f.len() ==> (#[trigger] f[i]).len() > 0 && !f[i].contains('\n'),
        forall|i: int| 0 <= i < f.len() && i != p ==> #[trigger] f[i] != sentinel(),
    ensures
        content_without(f, p).len() > 0,
        write_fields(c, t, r, content_without(f, p), Some(stored)).len() == f.len() - 1,
        forall|i: int| 0 <= i < p ==> #[trigger] write_fields(c, t, r, content_without(f, p), Some(stored))[i] == f[i],
        forall|i: int|
            p <= i < f.len() - 1 ==> #[trigger] write_fields(c, t, r, content_without(f, p), Some(stored))[i] == f[i + 1],
        with_row(without_content(v, t, r, f[p]), t, r, write_fields(c, t, r, content_without(f, p), Some(stored)))[t as int][r as int]
            == fields_map(f.remove(p)),
        !f.remove(p).contains(f[p]) ==> !fields_map(f.remove(p)).contains_key(f[p]),
        write_spec(c, t, r, content_without(f, p), Some(stored)) is Ok ==> frame_spec(c, t, r, f.remove(p))
            == Some(write_spec(c, t, r, content_without(f, p), Some(stored))->Ok_0)
            && survives_storage(c, t, r, f.remove(p)),
{
    let rest = f.remove(p);
    assert forall|i: int| 0 <= i < rest.len() implies !(#[trigger] rest[i]).contains('\n') by {
        if i < p {
            assert(rest[i] == f[i]);
        } else {
            assert(rest[i] == f[i + 1]);
        }
    }
    lemma_split_join(rest, '\n');
    assert(resolve(rest, Some(f)) =~= rest) by {
        assert forall|i: int| 0 <= i < rest.len() implies resolve(rest, Some(f))[i] == rest[i] by {
            if i < p {
                assert(rest[i] == f[i]);
            } else {
                assert(rest[i] == f[i + 1]);
            }
        }
    }
    assert(rest[0].len() > 0) by {
        if p == 0 {
            assert(rest[0] == f[1]);
        } else {
            assert(rest[0] == f[0]);
        }
    }
    lemma_join_nonempty(rest, '\n');
    lemma_with_row(without_content(v, t, r, f[p]), t, r, rest);
    lemma_fields_map_keys(rest);
    if frame_spec(c, t, r, rest) is Some {
        lemma_row_chunks(c, t, r, rest);
    }
}

proof fn lemma_fields_map_keys(fields: Seq<Seq<char>>)
    ensures
        forall|k: Seq<char>| #[trigger] fields_map(fields).contains_key(k) ==> fields.contains(k),
    decreases fields.len(),
{
    if fields.len() > 0 {
        let init = fields.drop_last();
        lemma_fields_map_keys(init);
        assert forall|k: Seq<char>| #[trigger] fields_map(fields).contains_key(k) implies fields.contains(k) by {
            if k == fields.last() {
                assert(fields[fields.len() - 1] == k);
            } else {
                assert(fields_map(init).contains_key(k));
                let i = choose|i: int| 0 <= i < init.len() && init[i] == k;
                assert(fields[i] == k);
            }
        }
    }
}

/// Deleting the last row slot of a table shrinks the table's slot count by
/// one; deleting any other row empties its mapping and leaves the count, and
/// every other slot, as they were.
pub proof fn lemma_row_delete_slots(v: Seq<Seq<Map<Seq<char>, usize>>>, t: nat, r: nat)
    requires
        t < v.len(),
        r < v[t as int].len(),
    ensures
        without_row(v, t, r).len() == v.len(),
        r + 1 == v[t as int].len() ==> without_row(v, t, r)[t as int].len() == v[t as int].len() - 1,
        r + 1 < v[t as int].len() ==> without_row(v, t, r)[t as int].len() == v[t as int].len()
            && without_row(v, t, r)[t as int][r as int] == Map::<Seq<char>, usize>::empty(),
        forall|b: int|
            0 <= b < without_row(v, t, r)[t as int].len() && b != r ==> #[trigger] without_row(v, t, r)[t as int][b]
                == v[t as int][b],
        forall|a: int| 0 <= a < v.len() && a != t ==> #[trigger] without_row(v, t, r)[a] == v[a],
{
}

/// A sealed field is a function of key, position and text alone: its nonce
/// comes from the position, never from the content. The same text written at
/// the same position under the same key gives the same bytes every time, and
/// two texts written in turn at one position are sealed under one nonce.
pub proof fn lemma_nonce_by_position(key: [u8; 16], t: nat, r: nat, f: nat, a: Seq<char>, b: Seq<char>)
    ensures
        field_chunk(Cipher::Aes128Gcm(key), t, r, f, a) is Some ==> nonce_of(t, r, f) is Some
            && field_chunk(Cipher::Aes128Gcm(key), t, r, f, a)->0 == sealed(
            key@,
            nonce_of(t, r, f)->0,
            encode_utf8(a),
        ),
        field_chunk(Cipher::Aes128Gcm(key), t, r, f, b) is Some ==> nonce_of(t, r, f) is Some
            && field_chunk(Cipher::Aes128Gcm(key), t, r, f, b)->0 == sealed(
            key@,
            nonce_of(t, r, f)->0,
            encode_utf8(b),
        ),
{
}

proof fn lemma_plain_decode_chunks(t: nat, r: nat, v: Seq<Seq<char>>)
    requires
        forall|i: int| 0 <= i < v.len() ==> (#[trigger] v[i]).len() > 0 && !v[i].contains('\n'),
    ensures
        row_chunks(Cipher::Plain, t, r, v) is Some,
        decode_runs(Cipher::Plain, t, r, row_chunks(Cipher::Plain, t, r, v)->0) == Some(v),
    decreases v.len(),
{
    if v.len() > 0 {
        let init = v.drop_last();
        assert forall|i: int| 0 <= i < init.len() implies (#[trigger] init[i]).len() > 0 && !init[i].contains('\n') by {
            assert(init[i] == v[i]);
        }
        lemma_plain_decode_chunks(t, r, init);
        let last = v[v.len() - 1];
        assert(last == v.last());
        lemma_utf8_newline_free(last);
        vstd::utf8::encode_utf8_valid_utf8(last);
        vstd::utf8::encode_utf8_decode_utf8(last);
        let ch = row_chunks(Cipher::Plain, t, r, v)->0;
        assert(ch.drop_last() == row_chunks(Cipher::Plain, t, r, init)->0);
        assert(ch.last() == encode_utf8(last));
        assert(field_text(Cipher::Plain, t, r, (ch.len() - 1) as nat, ch.last()) == Some(last));
        assert(init.push(last) =~= v);
    }
}

/// In the plain mode, fields that are not empty and hold no newline survive
/// storage: framing them and parsing the frame gives them back.
pub proof fn lemma_plain_round_trip(t: nat, r: nat, v: Seq<Seq<char>>)
    requires
        v.len() >= 1,
        forall|i: int| 0 <= i < v.len() ==> (#[trigger] v[i]).len() > 0 && !v[i].contains('\n'),
    ensures
        survives_storage(Cipher::Plain, t, r, v),
        frame_spec(Cipher::Plain, t, r, v) is Some,
        parse_spec(Cipher::Plain, t, r, frame_spec(Cipher::Plain, t, r, v)->0) == Some(v),
{
    lemma_plain_decode_chunks(t, r, v);
    crate::row_codec::lemma_frame_runs(Cipher::Plain, t, r, v);
}

} // verus!
