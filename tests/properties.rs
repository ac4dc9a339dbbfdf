use jadb::escape::{escape_chunk, unescape_chunk};
use jadb::{
    decimal_string, decode_field, derive_nonce, encode_field, info_file_name, init,
    parse_row_number, search, Cipher, DbError, Field, Index, LenType, Row, Table,
};

const KEY: &[u8; 16] = b"Zr4u7x!A%D*G-KaP";

fn table() -> Table<'static> {
    Table {
        path: "db/people",
        id: 0,
    }
}

fn sealed() -> Cipher {
    Cipher::Aes128Gcm(*KEY)
}

fn read_all(t: Table, row: Row, bytes: &Vec<u8>, c: &Cipher) -> Vec<String> {
    t.read(row, Some(bytes), c).unwrap()
}

#[test]
fn plain_write_stores_text_with_newlines() {
    let mut index = Index::new();
    let bytes = table()
        .write("hi\nyou", Row { pos: 0 }, None, &mut index, &Cipher::Plain)
        .unwrap();
    assert_eq!(bytes, b"hi\nyou".to_vec());
    let row = Row { pos: 0 };
    assert_eq!(row.length(table(), Some(&bytes), LenType::Fields, &Cipher::Plain), Ok(2));
    assert_eq!(row.length(table(), Some(&bytes), LenType::Characters, &Cipher::Plain), Ok(5));
}

#[test]
fn sealed_write_joins_chunks_with_byte_44() {
    let mut index = Index::new();
    let bytes = table()
        .write("hi\nyou", Row { pos: 0 }, None, &mut index, &sealed())
        .unwrap();
    // "hi" seals to 2 + 16 bytes, "you" to 3 + 16
    assert_eq!(bytes.len(), 18 + 1 + 19);
    assert_eq!(bytes[18], 44);
    assert_eq!(
        read_all(table(), Row { pos: 0 }, &bytes, &sealed()),
        vec![String::from("hi"), String::from("you")]
    );
}

#[test]
fn sealing_is_deterministic_per_position() {
    let c = sealed();
    let a = encode_field(&c, 0, 0, 0, "hi").unwrap();
    let b = encode_field(&c, 0, 0, 0, "hi").unwrap();
    assert_eq!(a, b);
    assert_eq!(
        a,
        vec![94, 100, 105, 240, 133, 194, 85, 56, 181, 144, 116, 45, 32, 57, 59, 77, 219, 230]
    );
    // another position gets another nonce
    let other = encode_field(&c, 0, 0, 1, "hi").unwrap();
    assert_ne!(a, other);
    // the nonce comes from the position alone
    assert_eq!(derive_nonce(0, 0, 0), derive_nonce(0, 0, 0));
    assert_eq!(derive_nonce(0, 0, 0).unwrap().len(), 12);
    assert_eq!(decode_field(&c, 0, 0, 0, &a), Ok(String::from("hi")));
}

#[test]
fn plain_codec_is_identity_on_text() {
    let c = Cipher::Plain;
    assert_eq!(encode_field(&c, 3, 4, 5, "grüße").unwrap(), "grüße".as_bytes().to_vec());
    assert_eq!(decode_field(&c, 3, 4, 5, "grüße".as_bytes()), Ok(String::from("grüße")));
    assert_eq!(decode_field(&c, 3, 4, 5, &[0xff, 0xfe]), Err(DbError::CryptoError));
}

#[test]
fn wrong_key_fails_to_decode() {
    let bytes = encode_field(&sealed(), 0, 0, 0, "hi").unwrap();
    let other = Cipher::Aes128Gcm(*b"0123456789abcdef");
    assert_eq!(decode_field(&other, 0, 0, 0, &bytes), Err(DbError::CryptoError));
    // a chunk read at another position gets another nonce
    assert_eq!(decode_field(&sealed(), 0, 0, 1, &bytes), Err(DbError::CryptoError));
    let mut index = Index::new();
    let stored = table()
        .write("hi", Row { pos: 0 }, None, &mut index, &sealed())
        .unwrap();
    assert_eq!(
        table().read(Row { pos: 0 }, Some(&stored), &other),
        Err(DbError::CryptoError)
    );
}

#[test]
fn round_trip_in_both_modes() {
    let expected = vec![
        String::from("alpha"),
        String::from("βeta"),
        String::from("gamma 3"),
    ];
    for pos in 0..8 {
        for c in [Cipher::Plain, sealed()] {
            let mut index = Index::new();
            let row = Row { pos };
            let bytes = table()
                .write("alpha\nβeta\ngamma 3", row, None, &mut index, &c)
                .unwrap();
            assert_eq!(table().read(row, Some(&bytes), &c), Ok(expected.clone()));
        }
    }
}

#[test]
fn sealed_chunks_holding_delimiter_or_escape_round_trip() {
    let c = sealed();
    let mut with_delimiter = 0;
    let mut with_escape = 0;
    for pos in 0..64 {
        let fields = ["alpha", "beta", "gamma"];
        for (i, f) in fields.iter().enumerate() {
            let chunk = encode_field(&c, 0, pos, i, f).unwrap();
            if chunk.contains(&44) {
                with_delimiter += 1;
            }
            if chunk.contains(&0x5C) {
                with_escape += 1;
            }
        }
        let mut index = Index::new();
        let row = Row { pos };
        let bytes = table()
            .write("alpha\nbeta\ngamma", row, None, &mut index, &c)
            .unwrap();
        // the file holds exactly two delimiters, between the three chunks
        assert_eq!(bytes.iter().filter(|b| **b == 44).count(), 2);
        assert_eq!(
            table().read(row, Some(&bytes), &c),
            Ok(vec![
                String::from("alpha"),
                String::from("beta"),
                String::from("gamma")
            ])
        );
    }
    assert!(with_delimiter > 0);
    assert!(with_escape > 0);
}

#[test]
fn escaping_a_chunk() {
    let chunk = vec![1, 44, 0x5C, 7];
    let escaped = escape_chunk(&chunk);
    assert_eq!(escaped, vec![1, 0x5C, 0x2E, 0x5C, 0x5C, 7]);
    assert_eq!(unescape_chunk(&escaped), Some(chunk));
    assert_eq!(unescape_chunk(&vec![0x5C]), None);
    assert_eq!(unescape_chunk(&vec![0x5C, 9]), None);
}

#[test]
fn sentinel_takes_previous_content() {
    for c in [Cipher::Plain, sealed()] {
        let mut index = Index::new();
        let row = Row { pos: 0 };
        let first = table().write("a\nb", row, None, &mut index, &c).unwrap();
        let second = table().write("|o\nx", row, Some(&first), &mut index, &c).unwrap();
        assert_eq!(
            read_all(table(), row, &second, &c),
            vec![String::from("a"), String::from("x")]
        );
        assert_eq!(table().search(String::from("a"), &index), vec![0, 0, 0]);
        // the overwritten content is no longer indexed
        assert_eq!(table().search(String::from("b"), &index), Vec::<usize>::new());
    }
}

#[test]
fn sentinel_is_literal_for_a_new_row() {
    let mut index = Index::new();
    let row = Row { pos: 0 };
    let bytes = table().write("|o\nx", row, None, &mut index, &Cipher::Plain).unwrap();
    assert_eq!(bytes, b"|o\nx".to_vec());
    let again = table().write("|o\n|o\n|o", row, Some(&bytes), &mut index, &Cipher::Plain).unwrap();
    // the third position had no previous field
    assert_eq!(again, b"|o\nx\n|o".to_vec());
}

#[test]
fn empty_content_is_refused_and_index_unchanged() {
    let mut index = Index::new();
    let r = table().write("", Row { pos: 0 }, None, &mut index, &Cipher::Plain);
    assert_eq!(r, Err(DbError::InvalidArgument));
    assert_eq!(index.table_count(), 0);
}

#[test]
fn read_of_missing_row_is_not_found() {
    assert_eq!(
        table().read(Row { pos: 3 }, None, &Cipher::Plain),
        Err(DbError::NotFound)
    );
    assert_eq!(
        Row { pos: 3 }.length(table(), None, LenType::Fields, &Cipher::Plain),
        Err(DbError::NotFound)
    );
}

#[test]
fn plain_read_skips_empty_runs() {
    let bytes = b"a\n\nb\n".to_vec();
    assert_eq!(
        read_all(table(), Row { pos: 0 }, &bytes, &Cipher::Plain),
        vec![String::from("a"), String::from("b")]
    );
}

#[test]
fn init_then_search_finds_first_field() {
    let t = Table {
        path: "db/t",
        id: 0,
    };
    let mut index = Index::new();
    let files = vec![
        (String::from(info_file_name()), b"banner".to_vec()),
        (String::from("0"), b"hi\nyou".to_vec()),
    ];
    assert_eq!(init(t, &files, &mut index, &Cipher::Plain), Ok(()));
    assert_eq!(t.search(String::from("hi"), &index), vec![0, 0, 0]);
    assert_eq!(t.search(String::from("you"), &index), vec![0, 0, 1]);
    assert_eq!(t.search(String::from("missing"), &index), Vec::<usize>::new());
}

#[test]
fn init_places_rows_by_file_name() {
    let t = Table {
        path: "db/t",
        id: 2,
    };
    let mut index = Index::new();
    let files = vec![
        (String::from("3"), b"x".to_vec()),
        (String::from("notes.txt"), b"y".to_vec()),
        (String::from("1"), b"y".to_vec()),
    ];
    init(t, &files, &mut index, &Cipher::Plain).unwrap();
    assert_eq!(index.table_count(), 3);
    assert_eq!(index.row_count(2), 4);
    assert_eq!(t.search(String::from("x"), &index), vec![2, 3, 0]);
    assert_eq!(t.search(String::from("y"), &index), vec![2, 1, 0]);
    assert_eq!(search(String::from("x"), &index), vec![2, 3, 0]);
}

#[test]
fn init_fails_on_undecodable_row_and_keeps_index() {
    let t = table();
    let mut index = Index::new();
    t.write("keep", Row { pos: 0 }, None, &mut index, &Cipher::Plain).unwrap();
    let files = vec![(String::from("0"), vec![1, 2, 3])];
    assert_eq!(init(t, &files, &mut index, &sealed()), Err(DbError::CryptoError));
    assert_eq!(t.search(String::from("keep"), &index), vec![0, 0, 0]);
}

#[test]
fn search_continues_past_rows_without_the_term() {
    let mut index = Index::new();
    let t0 = Table { path: "a", id: 0 };
    let t1 = Table { path: "b", id: 1 };
    t0.write("x", Row { pos: 0 }, None, &mut index, &Cipher::Plain).unwrap();
    t1.write("p\nq", Row { pos: 0 }, None, &mut index, &Cipher::Plain).unwrap();
    t1.write("z\nq", Row { pos: 2 }, None, &mut index, &Cipher::Plain).unwrap();
    assert_eq!(t1.search(String::from("z"), &index), vec![1, 2, 0]);
    assert_eq!(search(String::from("q"), &index), vec![1, 0, 1]);
    assert_eq!(search(String::from("z"), &index), vec![1, 2, 0]);
    assert_eq!(t0.search(String::from("q"), &index), Vec::<usize>::new());
    // a table id beyond the index has nothing
    let t9 = Table { path: "c", id: 9 };
    assert_eq!(t9.search(String::from("x"), &index), Vec::<usize>::new());
}

#[test]
fn repeated_content_maps_to_last_position() {
    let mut index = Index::new();
    table().write("d\ne\nd", Row { pos: 0 }, None, &mut index, &Cipher::Plain).unwrap();
    assert_eq!(table().search(String::from("d"), &index), vec![0, 0, 2]);
}

#[test]
fn field_delete_shifts_later_fields() {
    for c in [Cipher::Plain, sealed()] {
        let mut index = Index::new();
        let row = Row { pos: 0 };
        let bytes = table().write("a\nb\nc", row, None, &mut index, &c).unwrap();
        let after = Field { pos: 1 }
            .delete(table(), row, Some(&bytes), &mut index, &c)
            .unwrap();
        assert_eq!(
            read_all(table(), row, &after, &c),
            vec![String::from("a"), String::from("c")]
        );
        assert_eq!(table().search(String::from("b"), &index), Vec::<usize>::new());
        assert_eq!(table().search(String::from("c"), &index), vec![0, 0, 1]);
    }
}

#[test]
fn field_delete_errors() {
    let mut index = Index::new();
    let row = Row { pos: 0 };
    let bytes = table().write("only", row, None, &mut index, &Cipher::Plain).unwrap();
    assert_eq!(
        Field { pos: 4 }.delete(table(), row, Some(&bytes), &mut index, &Cipher::Plain),
        Err(DbError::NotFound)
    );
    assert_eq!(
        Field { pos: 0 }.delete(table(), row, None, &mut index, &Cipher::Plain),
        Err(DbError::NotFound)
    );
    // removing the last field leaves nothing to write
    assert_eq!(
        Field { pos: 0 }.delete(table(), row, Some(&bytes), &mut index, &Cipher::Plain),
        Err(DbError::InvalidArgument)
    );
    assert_eq!(
        Field { pos: 1 }.length(table(), row, Some(&bytes), &Cipher::Plain),
        Err(DbError::NotFound)
    );
}

#[test]
fn row_delete_shrinks_only_at_the_end() {
    let mut index = Index::new();
    for pos in 0..3 {
        table()
            .write("v", Row { pos }, None, &mut index, &Cipher::Plain)
            .unwrap();
    }
    assert_eq!(index.row_count(0), 3);
    Row { pos: 0 }.delete(table(), true, &mut index).unwrap();
    assert_eq!(index.row_count(0), 3);
    assert_eq!(index.lookup(0, 0, &String::from("v")), None);
    assert_eq!(index.lookup(0, 1, &String::from("v")), Some(0));
    Row { pos: 2 }.delete(table(), true, &mut index).unwrap();
    assert_eq!(index.row_count(0), 2);
    assert_eq!(
        Row { pos: 1 }.delete(table(), false, &mut index),
        Err(DbError::NotFound)
    );
    assert_eq!(index.row_count(0), 2);
}

#[test]
fn table_delete_shrinks_only_at_the_end() {
    let mut index = Index::new();
    let t0 = Table { path: "a", id: 0 };
    let t1 = Table { path: "b", id: 1 };
    t0.write("x", Row { pos: 0 }, None, &mut index, &Cipher::Plain).unwrap();
    t1.write("y", Row { pos: 1 }, None, &mut index, &Cipher::Plain).unwrap();
    assert_eq!(index.table_count(), 2);
    assert_eq!(index.row_count(1), 2);
    t0.delete(true, &mut index).unwrap();
    assert_eq!(index.table_count(), 2);
    assert_eq!(index.row_count(0), 0);
    t1.delete(true, &mut index).unwrap();
    assert_eq!(index.table_count(), 1);
    assert_eq!(t1.delete(false, &mut index), Err(DbError::NotFound));
}

#[test]
fn digests_of_row_and_field() {
    let mut index = Index::new();
    let bytes = table().write("hi", Row { pos: 0 }, None, &mut index, &Cipher::Plain).unwrap();
    let row = Row { pos: 0 };
    assert_eq!(row.shash(table(), Some(&bytes), &Cipher::Plain), Ok(17259954866336786813));
    assert_eq!(
        Field { pos: 0 }.shash(table(), row, Some(&bytes), &Cipher::Plain),
        Ok(14565685931123352409)
    );
    assert_eq!(row.shash_debug(table(), Some(&bytes), "hi", &Cipher::Plain), 17259954866336786813);
}

#[test]
fn characters_count_unicode_scalars() {
    let bytes = "zwölf\nß".as_bytes().to_vec();
    let row = Row { pos: 0 };
    assert_eq!(row.length(table(), Some(&bytes), LenType::Characters, &Cipher::Plain), Ok(6));
    assert_eq!(
        Field { pos: 1 }.length(table(), row, Some(&bytes), &Cipher::Plain),
        Ok(1)
    );
}

#[test]
fn table_name_is_last_path_component() {
    assert_eq!(table().name(), "people");
    assert_eq!(Table { path: "single", id: 0 }.name(), "single");
    assert_eq!(Table { path: "dir/", id: 0 }.name(), "");
}

#[test]
fn decimal_text_helpers() {
    assert_eq!(decimal_string(0), "0");
    assert_eq!(decimal_string(18446744073709551615), "18446744073709551615");
    assert_eq!(parse_row_number("042"), Some(42));
    assert_eq!(parse_row_number("+7"), Some(7));
    assert_eq!(parse_row_number("+"), None);
    assert_eq!(parse_row_number("-7"), None);
    assert_eq!(parse_row_number(""), None);
    assert_eq!(parse_row_number("4a"), None);
    assert_eq!(parse_row_number("info.jadb"), None);
    assert_eq!(parse_row_number("99999999999999999999999"), None);
}
