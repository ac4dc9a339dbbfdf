use jadb::{init, search, status, Cipher, DbError, Field, Index, LenType, Row, Table};

const KEY: &[u8; 16] = b"Zr4u7x!A%D*G-KaP";

fn test_table() -> Table<'static> {
    Table {
        path: "tests/test_dir/test_db",
        id: 0,
    }
}

fn cipher() -> Cipher {
    Cipher::Aes128Gcm(*KEY)
}

/// The bytes of row 0 after the table's first write of "hi".
fn written_hi() -> Vec<u8> {
    let mut index = Index::new();
    test_table()
        .write("hi", Row { pos: 0 }, None, &mut index, &cipher())
        .unwrap()
}

#[test]
fn a_test_create() {
    let test_table = test_table();
    let c_res = test_table.create(false);
    assert_eq!(status(&c_res), 0);
    // the first creation occupied the location
    assert_eq!(status(&test_table.create(true)), 1);

    let test_table_2 = Table {
        path: "tests/test_dir/test_db",
        id: 1,
    };
    assert_eq!(status(&test_table_2.create(true)), 1);

    let test_table_3 = Table { path: "", id: 2 };
    assert_eq!(status(&test_table_3.create(false)), 1);
}

#[test]
fn b_test_write() {
    let test_table = test_table();
    let test_row = Row { pos: 0 };
    let cipher = cipher();
    let mut hasher = Index::new();
    assert_eq!(status(&init(test_table, &Vec::new(), &mut hasher, &cipher)), 0);
    let w_res = test_table.write("hi", test_row, None, &mut hasher, &cipher);
    assert_eq!(status(&w_res), 0);
    assert_eq!(
        w_res.unwrap(),
        vec![94, 100, 105, 240, 133, 194, 85, 56, 181, 144, 116, 45, 32, 57, 59, 77, 219, 230]
    );
    let stored = written_hi();
    assert_eq!(
        status(&test_table.write("", test_row, Some(&stored), &mut hasher, &cipher)),
        1
    );
}

#[test]
fn c_test_read() {
    let test_table = test_table();
    let test_row = Row { pos: 0 };
    let cipher = cipher();
    let stored = written_hi();
    let con = test_table.read(test_row, Some(&stored), &cipher).unwrap();
    let v_con = vec![String::from("hi")];
    assert_eq!(con, v_con);
}

#[test]
fn d_test_len() {
    let test_table = test_table();
    let test_row = Row { pos: 0 };
    let test_field = Field { pos: 0 };
    let cipher = cipher();
    let stored = written_hi();
    assert_eq!(
        test_row.length(test_table, Some(&stored), LenType::Characters, &cipher),
        Ok(2)
    );
    assert_eq!(
        test_row.length(test_table, Some(&stored), LenType::Fields, &cipher),
        Ok(1)
    );
    assert_eq!(
        test_field.length(test_table, test_row, Some(&stored), &cipher),
        Ok(2)
    );
}

#[test]
fn e_test_hash() {
    let test_table = test_table();
    let test_row = Row { pos: 0 };
    let test_field = Field { pos: 0 };
    let cipher = cipher();
    let stored = written_hi();
    assert_eq!(
        test_row.shash_debug(test_table, Some(&stored), "hi", &cipher),
        17259954866336786813
    );
    assert_eq!(
        test_row.shash(test_table, Some(&stored), &cipher),
        Ok(17259954866336786813)
    );
    assert_eq!(
        test_field.shash_debug(test_table, test_row, Some(&stored), "hi", &cipher),
        14565685931123352409
    );
    assert_eq!(
        test_field.shash(test_table, test_row, Some(&stored), &cipher),
        Ok(14565685931123352409)
    );
}

#[test]
fn f_search_test() {
    let test_table = test_table();
    let cipher = cipher();
    let mut hasher = Index::new();
    let files = vec![
        (String::from("info.jadb"), b"jadb database".to_vec()),
        (String::from("0"), written_hi()),
    ];
    assert_eq!(status(&init(test_table, &files, &mut hasher, &cipher)), 0);
    assert_eq!(
        test_table.search(String::from("hi"), &hasher),
        vec![0, 0, 0]
    );
    assert_eq!(search(String::from("hi"), &hasher), vec![0, 0, 0]);
}

#[test]
fn g_test_delete() {
    let test_table = test_table();
    let test_row = Row { pos: 0 };
    let test_field = Field { pos: 1 };
    let cipher = cipher();
    let mut hasher = Index::new();
    let files = vec![(String::from("0"), written_hi())];
    init(test_table, &files, &mut hasher, &cipher).unwrap();

    let stored = written_hi();
    let w_res = test_table.write("|o\na", test_row, Some(&stored), &mut hasher, &cipher);
    assert_eq!(status(&w_res), 0);
    let stored = w_res.unwrap();
    let del_f = test_field.delete(test_table, test_row, Some(&stored), &mut hasher, &cipher);
    assert_eq!(status(&del_f), 0);
    let stored = del_f.unwrap();
    assert_eq!(
        test_table.read(test_row, Some(&stored), &cipher).unwrap(),
        vec![String::from("hi")]
    );

    let del_r = test_row.delete(test_table, true, &mut hasher);
    assert_eq!(status(&del_r), 0);
    // the row file is gone now
    assert_eq!(status(&test_row.delete(test_table, false, &mut hasher)), 1);

    let del_t = test_table.delete(true, &mut hasher);
    assert_eq!(status(&del_t), 0);
    // the table directory is gone now
    assert_eq!(status(&test_table.delete(false, &mut hasher)), 1);
    assert_eq!(hasher.table_count(), 0);
}

#[test]
fn create_errors_name_their_kind() {
    let t = test_table();
    assert_eq!(t.create(true), Err(DbError::AlreadyExists));
    assert_eq!(Table { path: "", id: 0 }.create(false), Err(DbError::InvalidArgument));
    assert_eq!(Table { path: "", id: 0 }.create(true), Err(DbError::InvalidArgument));
    assert_eq!(t.create(false), Ok(()));
}
