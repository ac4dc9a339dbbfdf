use vstd::prelude::*;

use crate::error::DbError;
use crate::field_codec::{digest_text, text_digest, Cipher};
use crate::index::{
    with_empty_table, with_row, without_content, without_row, without_table, Index,
};
use crate::row_codec::{
    frame_fields, frame_spec, parse_fields, parse_spec, resolve, resolve_fields, survives_storage,
};
use crate::text::{join_lines, join_with, parse_decimal, parse_row_number, split_lines, split_on, texts};

verus! {

/// A table: a directory of row files at `path`, known to the index by `id`.
#[derive(Clone, Copy)]
pub struct Table<'a> {
    pub path: &'a str,
    pub id: usize,
}

/// A row of a table, stored as the file named by its position.
#[derive(Clone, Copy, Debug, PartialEq, Eq, Structural, Hash)]
pub struct Row {
    pub pos: usize,
}

/// A field of a row, addressed by its position in the row.
#[derive(Clone, Copy, Debug, PartialEq, Eq, Structural, Hash)]
pub struct Field {
    pub pos: usize,
}

/// What `Row::length` counts.
#[derive(Clone, Copy, Debug, PartialEq, Eq, Structural)]
pub enum LenType {
    /// The number of fields.
    Fields,
    /// The number of characters over all fields.
    Characters,
}

/// The digest that std's `DefaultHasher` gives a sequence of texts.
pub uninterp spec fn fields_digest(fields: Seq<Seq<char>>) -> u64;

/// Relies on std's `BuildHasher::hash_one` over `BuildHasherDefault<DefaultHasher>`:
/// every `DefaultHasher` made by `new` or `default` starts from the same keys, so
/// the digest depends on the texts alone.
#[verifier::external_body]
fn digest_fields(v: &Vec<String>) -> (r: u64)
    ensures
        r == fields_digest(texts(v@)),
{
    std::hash::BuildHasher::hash_one(
        &std::hash::BuildHasherDefault::<std::collections::hash_map::DefaultHasher>::default(),
        v,
    )
}

/// The name of the metadata file inside a table's directory.
pub open spec fn info_name() -> Seq<char> {
    seq!['i', 'n', 'f', 'o', '.', 'j', 'a', 'd', 'b']
}

/// The name of the metadata file inside a table's directory.
pub fn info_file_name() -> (r: &'static str)
    ensures
        r@ == info_name(),
{
    proof {
        reveal_strlit("info.jadb");
    }
    "info.jadb"
}

/// The last component of a path: what follows its last `/`, or all of it.
pub open spec fn base_name(p: Seq<char>) -> Seq<char>
    decreases p.len(),
{
    if p.len() == 0 {
        p
    } else if p.last() == '/' {
        Seq::empty()
    } else {
        base_name(p.drop_last()).push(p.last())
    }
}

/// The outcome of creating a table at `path` where `occupied` tells whether
/// something already stands there.
pub open spec fn create_outcome(path: Seq<char>, occupied: bool) -> Result<(), DbError> {
    if path.len() == 0 {
        Err(DbError::InvalidArgument)
    } else if occupied {
        Err(DbError::AlreadyExists)
    } else {
        Ok(())
    }
}

/// The fields of the row as stored: `NotFound` when there is no row file.
pub open spec fn read_spec(c: Cipher, t: nat, r: nat, stored: Option<Seq<u8>>) -> Result<
    Seq<Seq<char>>,
    DbError,
> {
    match stored {
        Some(raw) => match parse_spec(c, t, r, raw) {
            Some(f) => Ok(f),
            None => Err(DbError::CryptoError),
        },
        None => Err(DbError::NotFound),
    }
}

/// The previous fields a write resolves against: none for a new row.
pub open spec fn previous_fields(c: Cipher, t: nat, r: nat, stored: Option<Seq<u8>>) -> Result<
    Option<Seq<Seq<char>>>,
    DbError,
> {
    match stored {
        Some(raw) => match parse_spec(c, t, r, raw) {
            Some(f) => Ok(Some(f)),
            None => Err(DbError::CryptoError),
        },
        None => Ok(None),
    }
}

/// The fields that a write of `content` stores: its lines, with the sentinel resolved.
pub open spec fn write_fields(
    c: Cipher,
    t: nat,
    r: nat,
    content: Seq<char>,
    stored: Option<Seq<u8>>,
) -> Seq<Seq<char>> {
    resolve(
        split_on(content, '\n'),
        match previous_fields(c, t, r, stored) {
            Ok(p) => p,
            Err(_) => None,
        },
    )
}

/// The bytes of the row file after a write of `content`, or why it fails.
pub open spec fn write_spec(
    c: Cipher,
    t: nat,
    r: nat,
    content: Seq<char>,
    stored: Option<Seq<u8>>,
) -> Result<Seq<u8>, DbError> {
    if content.len() == 0 {
        Err(DbError::InvalidArgument)
    } else {
        match previous_fields(c, t, r, stored) {
            Err(e) => Err(e),
            Ok(_) => match frame_spec(c, t, r, write_fields(c, t, r, content, stored)) {
                Some(b) => Ok(b),
                None => Err(DbError::CryptoError),
            },
        }
    }
}

/// The bytes of a row file, where there is one.
pub open spec fn bytes_of(stored: Option<&Vec<u8>>) -> Option<Seq<u8>> {
    match stored {
        Some(s) => Some(s@),
        None => None,
    }
}

/// The number of characters over all fields.
pub open spec fn total_chars(f: Seq<Seq<char>>) -> nat
    decreases f.len(),
{
    if f.len() == 0 {
        0
    } else {
        total_chars(f.drop_last()) + f.last().len()
    }
}

pub open spec fn length_of(f: Seq<Seq<char>>, utype: LenType) -> nat {
    match utype {
        LenType::Fields => f.len(),
        LenType::Characters => total_chars(f),
    }
}

/// A count as an `i32`, refused as `InvalidArgument` when it does not fit.
pub open spec fn as_count(n: nat) -> Result<i32, DbError> {
    if n <= i32::MAX {
        Ok(n as i32)
    } else {
        Err(DbError::InvalidArgument)
    }
}

proof fn lemma_total_chars_grows(f: Seq<Seq<char>>, i: int)
    requires
        0 <= i <= f.len(),
    ensures
        total_chars(f.take(i)) <= total_chars(f),
    decreases f.len() - i,
{
    if i < f.len() {
        lemma_total_chars_grows(f, i + 1);
        assert(f.take(i + 1).drop_last() =~= f.take(i));
    } else {
        assert(f.take(i) =~= f);
    }
}

/// Counts fields or characters, refusing a count over `i32::MAX`.
fn count(fields: &Vec<String>, utype: LenType) -> (res: Result<i32, DbError>)
    ensures
        res == as_count(length_of(texts(fields@), utype)),
{
    match utype {
        LenType::Fields => {
            if fields.len() <= 0x7fff_ffff {
                Ok(fields.len() as i32)
            } else {
                Err(DbError::InvalidArgument)
            }
        },
        LenType::Characters => {
            let ghost f = texts(fields@);
            let mut total: usize = 0;
            let mut i: usize = 0;
            while i < fields.len()
                invariant
                    i <= fields.len(),
                    f == texts(fields@),
                    utype == LenType::Characters,
                    total == total_chars(f.take(i as int)),
                    total <= i32::MAX,
                decreases fields.len() - i,
            {
                let n = fields[i].as_str().unicode_len();
                proof {
                    assert(f.take(i + 1).drop_last() =~= f.take(i as int));
                    assert(f.take(i + 1).last() == fields[i as int]@);
                }
                if n > 0x7fff_ffff - total {
                    proof {
                        lemma_total_chars_grows(f, i + 1);
                        assert(total_chars(f.take(i + 1)) == total + n);
                    }
                    return Err(DbError::InvalidArgument);
                }
                total = total + n;
                i = i + 1;
            }
            proof {
                assert(f.take(fields.len() as int) =~= f);
            }
            Ok(total as i32)
        },
    }
}

/// `term` is in the mapping of row `r` of table `t`.
pub open spec fn holds(v: Seq<Seq<Map<Seq<char>, usize>>>, t: int, r: int, term: Seq<char>) -> bool {
    0 <= t < v.len() && 0 <= r < v[t].len() && v[t][r].contains_key(term)
}

/// The result of a search of table `t`: empty where no row holds `term`,
/// else `[t, r, f]` for the first row `r` that holds it, at field `f`.
pub open spec fn table_hit(v: Seq<Seq<Map<Seq<char>, usize>>>, t: int, term: Seq<char>, res: Seq<usize>) -> bool {
    if exists|r: int| holds(v, t, r, term) {
        &&& res.len() == 3
        &&& res[0] == t
        &&& holds(v, t, res[1] as int, term)
        &&& v[t][res[1] as int][term] == res[2]
        &&& forall|r: int| 0 <= r < res[1] ==> !holds(v, t, r, term)
    } else {
        res.len() == 0
    }
}

/// The result of a search of every table: empty where no row holds `term`,
/// else `[t, r, f]` for the first table `t`, and in it the first row `r`, that
/// holds it, at field `f`.
pub open spec fn global_hit(v: Seq<Seq<Map<Seq<char>, usize>>>, term: Seq<char>, res: Seq<usize>) -> bool {
    if exists|t: int, r: int| holds(v, t, r, term) {
        &&& res.len() == 3
        &&& holds(v, res[0] as int, res[1] as int, term)
        &&& v[res[0] as int][res[1] as int][term] == res[2]
        &&& forall|t: int, r: int| 0 <= t < res[0] ==> !holds(v, t, r, term)
        &&& forall|r: int| 0 <= r < res[1] ==> !holds(v, res[0] as int, r, term)
    } else {
        res.len() == 0
    }
}

/// Searches the rows of table `t` in ascending order, and stops at the first that holds `term`.
fn search_table(index: &Index, t: usize, term: &String) -> (res: Vec<usize>)
    requires
        index.wf(),
    ensures
        table_hit(index@, t as int, term@, res@),
{
    let n = index.row_count(t);
    let mut j: usize = 0;
    while j < n
        invariant
            index.wf(),
            n == (if t < index@.len() { index@[t as int].len() } else { 0 }),
            j <= n,
            forall|r: int| 0 <= r < j ==> !holds(index@, t as int, r, term@),
        decreases n - j,
    {
        match index.lookup(t, j, term) {
            Some(f) => {
                let hit = vec![t, j, f];
                proof {
                    assert(holds(index@, t as int, j as int, term@));
                    assert(hit@ =~= seq![t, j, f]);
                }
                return hit;
            },
            None => {},
        }
        j = j + 1;
    }
    proof {
        assert forall|r: int| !holds(index@, t as int, r, term@) by {
            if 0 <= r < j {
            }
        }
    }
    Vec::new()
}

/// Searches every table of the index for `term`: tables in ascending order,
/// and in each its rows in ascending order; the first row that holds `term` ends
/// the search. Returns `[table, row, field]`, or an empty vector.
pub fn search(term: String, index: &Index) -> (res: Vec<usize>)
    requires
        index.wf(),
    ensures
        global_hit(index@, term@, res@),
{
    let n = index.table_count();
    let mut i: usize = 0;
    while i < n
        invariant
            index.wf(),
            n == index@.len(),
            i <= n,
            forall|t: int, r: int| 0 <= t < i ==> !holds(index@, t, r, term@),
        decreases n - i,
    {
        let found = search_table(index, i, &term);
        if found.len() > 0 {
            proof {
                assert(exists|r: int| holds(index@, i as int, r, term@));
                assert(forall|t: int, r: int| 0 <= t < found@[0] ==> !holds(index@, t, r, term@));
            }
            return found;
        }
        i = i + 1;
    }
    proof {
        assert forall|t: int, r: int| !holds(index@, t, r, term@) by {
            if 0 <= t < i {
            }
        }
    }
    Vec::new()
}

impl<'a> Table<'a> {
    /// Searches the index slot of this table for `term`: its rows in ascending
    /// order, the first row that holds `term` ends the search. Returns
    /// `[table, row, field]`, or an empty vector.
    pub fn search(&self, term: String, index: &Index) -> (res: Vec<usize>)
        requires
            index.wf(),
        ensures
            table_hit(index@, self.id as int, term@, res@),
    {
        search_table(index, self.id, &term)
    }

    /// Deletes the table from the index once its directory is known to be a
    /// table (`info_present`: its metadata file exists); `NotFound` otherwise.
    pub fn delete(&self, info_present: bool, index: &mut Index) -> (res: Result<(), DbError>)
        requires
            old(index).wf(),
        ensures
            final(index).wf(),
            info_present ==> res == Ok::<(), DbError>(()) && final(index)@ == without_table(old(index)@, self.id as nat),
            !info_present ==> res == Err::<(), DbError>(DbError::NotFound) && final(index)@ == old(index)@,
    {
        if info_present {
            index.clear_table(self.id);
            Ok(())
        } else {
            Err(DbError::NotFound)
        }
    }

    /// Decides whether a table may be created here: the path must not be empty,
    /// and nothing may stand at it yet (`occupied`, as the file system tells).
    pub fn create(&self, occupied: bool) -> (res: Result<(), DbError>)
        ensures
            res == create_outcome(self.path@, occupied),
    {
        if self.path.is_empty() {
            Err(DbError::InvalidArgument)
        } else if occupied {
            Err(DbError::AlreadyExists)
        } else {
            Ok(())
        }
    }

    /// The table's name: the last component of its path.
    pub fn name(&self) -> (r: &'a str)
        ensures
            r@ == base_name(self.path@),
    {
        let p = self.path;
        let n = p.unicode_len();
        let mut start: usize = 0;
        let mut i: usize = 0;
        while i < n
            invariant
                n == p@.len(),
                p == self.path,
                start <= i <= n,
                base_name(p@.take(i as int)) == p@.subrange(start as int, i as int),
            decreases n - i,
        {
            let c = p.get_char(i);
            proof {
                assert(p@.take(i + 1).drop_last() =~= p@.take(i as int));
                assert(p@.take(i + 1).last() == c);
            }
            if c == '/' {
                start = i + 1;
                proof {
                    assert(p@.subrange(start as int, i + 1) =~= Seq::<char>::empty());
                }
            } else {
                proof {
                    assert(p@.subrange(start as int, i as int).push(c) =~= p@.subrange(
                        start as int,
                        i + 1,
                    ));
                }
            }
            i = i + 1;
        }
        proof {
            assert(p@.take(n as int) =~= p@);
        }
        p.substring_char(start, n)
    }

    /// Writes `content` to `row`: its lines are the fields, a field `|o` takes
    /// the previous content of its position, and each field is encoded at its
    /// position. `stored` holds the row file's bytes where it exists. Returns
    /// the new bytes of the row file, and sets the row's index mapping to the
    /// fields written.
    pub fn write(
        &self,
        content: &str,
        row: Row,
        stored: Option<&Vec<u8>>,
        index: &mut Index,
        cipher: &Cipher,
    ) -> (res: Result<Vec<u8>, DbError>)
        requires
            old(index).wf(),
            self.id < usize::MAX,
            row.pos < usize::MAX,
        ensures
            final(index).wf(),
            match res {
                Ok(b) => write_spec(
                    *cipher,
                    self.id as nat,
                    row.pos as nat,
                    content@,
                    bytes_of(stored),
                ) == Ok::<Seq<u8>, DbError>(b@) && final(index)@ == with_row(
                    old(index)@,
                    self.id as nat,
                    row.pos as nat,
                    write_fields(
                        *cipher,
                        self.id as nat,
                        row.pos as nat,
                        content@,
                        bytes_of(stored),
                    ),
                ),
                Err(e) => write_spec(
                    *cipher,
                    self.id as nat,
                    row.pos as nat,
                    content@,
                    bytes_of(stored),
                ) == Err::<Seq<u8>, DbError>(e) && final(index)@ == old(index)@,
            },
    {
        if content.is_empty() {
            return Err(DbError::InvalidArgument);
        }
        let fields = split_lines(content);
        let previous: Option<Vec<String>> = match stored {
            Some(raw) => match parse_fields(cipher, self.id, row.pos, raw) {
                Ok(p) => Some(p),
                Err(e) => {
                    return Err(e);
                },
            },
            None => None,
        };
        let resolved = match &previous {
            Some(p) => resolve_fields(fields, Some(p)),
            None => resolve_fields(fields, None),
        };
        let bytes = match frame_fields(cipher, self.id, row.pos, &resolved) {
            Ok(b) => b,
            Err(e) => {
                return Err(e);
            },
        };
        index.set_row(self.id, row.pos, &resolved);
        Ok(bytes)
    }

    /// Reads `row` from the bytes of its file (`None` where there is no such
    /// file): the runs between delimiters, each decoded at its position.
    ///
    /// Bytes that a write of fields `v` produced read back as `v`, whenever
    /// `v` survives storage.
    pub fn read(&self, row: Row, stored: Option<&Vec<u8>>, cipher: &Cipher) -> (res: Result<
        Vec<String>,
        DbError,
    >)
        ensures
            match res {
                Ok(v) => read_spec(
                    *cipher,
                    self.id as nat,
                    row.pos as nat,
                    bytes_of(stored),
                ) == Ok::<Seq<Seq<char>>, DbError>(texts(v@)),
                Err(e) => read_spec(
                    *cipher,
                    self.id as nat,
                    row.pos as nat,
                    bytes_of(stored),
                ) == Err::<Seq<Seq<char>>, DbError>(e),
            },
            forall|v: Seq<Seq<char>>|
                survives_storage(*cipher, self.id as nat, row.pos as nat, v) && stored is Some
                    && #[trigger] frame_spec(*cipher, self.id as nat, row.pos as nat, v) == Some(
                    stored->0@,
                ) ==> res is Ok && texts(res->Ok_0@) == v,
    {
        match stored {
            Some(raw) => parse_fields(cipher, self.id, row.pos, raw),
            None => Err(DbError::NotFound),
        }
    }
}

impl Row {
    /// Deletes the row from the index once its file is known to exist
    /// (`present`); `NotFound` otherwise.
    pub fn delete(&self, table: Table, present: bool, index: &mut Index) -> (res: Result<(), DbError>)
        requires
            old(index).wf(),
        ensures
            final(index).wf(),
            present ==> res == Ok::<(), DbError>(()) && final(index)@ == without_row(old(index)@, table.id as nat, self.pos as nat),
            !present ==> res == Err::<(), DbError>(DbError::NotFound) && final(index)@ == old(index)@,
    {
        if present {
            index.clear_row(table.id, self.pos);
            Ok(())
        } else {
            Err(DbError::NotFound)
        }
    }

    /// The length of the row stored as `stored`: its number of fields, or of
    /// characters over all fields.
    pub fn length(&self, table: Table, stored: Option<&Vec<u8>>, utype: LenType, cipher: &Cipher) -> (res: Result<i32, DbError>)
        ensures
            res == match read_spec(*cipher, table.id as nat, self.pos as nat, bytes_of(stored)) {
                Ok(f) => as_count(length_of(f, utype)),
                Err(e) => Err(e),
            },
    {
        let fields = table.read(*self, stored, cipher)?;
        count(&fields, utype)
    }

    /// The digest of the row's fields.
    pub fn shash(&self, table: Table, stored: Option<&Vec<u8>>, cipher: &Cipher) -> (res: Result<u64, DbError>)
        ensures
            res == match read_spec(*cipher, table.id as nat, self.pos as nat, bytes_of(stored)) {
                Ok(f) => Ok(fields_digest(f)),
                Err(e) => Err::<u64, DbError>(e),
            },
    {
        let fields = table.read(*self, stored, cipher)?;
        Ok(digest_fields(&fields))
    }

    /// The digest of the row's fields, for a row known to hold exactly the one
    /// field `expected`.
    pub fn shash_debug(&self, table: Table, stored: Option<&Vec<u8>>, expected: &str, cipher: &Cipher) -> (res: u64)
        requires
            read_spec(*cipher, table.id as nat, self.pos as nat, bytes_of(stored))
                == Ok::<Seq<Seq<char>>, DbError>(seq![expected@]),
        ensures
            res == fields_digest(seq![expected@]),
    {
        match table.read(*self, stored, cipher) {
            Ok(fields) => digest_fields(&fields),
            Err(_) => vstd::pervasive::unreached(),
        }
    }
}

/// The content a field deletion rewrites the row with: the other fields, one per line.
pub open spec fn content_without(f: Seq<Seq<char>>, p: int) -> Seq<char> {
    join_with(f.remove(p), '\n')
}

impl Field {
    /// The number of characters of the field.
    pub fn length(&self, table: Table, row: Row, stored: Option<&Vec<u8>>, cipher: &Cipher) -> (res: Result<i32, DbError>)
        ensures
            res == match read_spec(*cipher, table.id as nat, row.pos as nat, bytes_of(stored)) {
                Ok(f) => if self.pos < f.len() {
                    as_count(f[self.pos as int].len())
                } else {
                    Err(DbError::NotFound)
                },
                Err(e) => Err(e),
            },
    {
        let fields = table.read(row, stored, cipher)?;
        if self.pos >= fields.len() {
            return Err(DbError::NotFound);
        }
        let n = fields[self.pos].as_str().unicode_len();
        if n <= 0x7fff_ffff {
            Ok(n as i32)
        } else {
            Err(DbError::InvalidArgument)
        }
    }

    /// The digest of the field's text.
    pub fn shash(&self, table: Table, row: Row, stored: Option<&Vec<u8>>, cipher: &Cipher) -> (res: Result<u64, DbError>)
        ensures
            res == match read_spec(*cipher, table.id as nat, row.pos as nat, bytes_of(stored)) {
                Ok(f) => if self.pos < f.len() {
                    Ok(text_digest(f[self.pos as int]))
                } else {
                    Err(DbError::NotFound)
                },
                Err(e) => Err(e),
            },
    {
        let fields = table.read(row, stored, cipher)?;
        if self.pos >= fields.len() {
            return Err(DbError::NotFound);
        }
        Ok(digest_text(fields[self.pos].as_str()))
    }

    /// The digest of the field's text, for a row known to hold exactly the one
    /// field `expected`, at position 0.
    pub fn shash_debug(&self, table: Table, row: Row, stored: Option<&Vec<u8>>, expected: &str, cipher: &Cipher) -> (res: u64)
        requires
            read_spec(*cipher, table.id as nat, row.pos as nat, bytes_of(stored))
                == Ok::<Seq<Seq<char>>, DbError>(seq![expected@]),
            self.pos == 0,
        ensures
            res == text_digest(expected@),
    {
        match table.read(row, stored, cipher) {
            Ok(fields) => {
                proof {
                    assert(texts(fields@) == seq![expected@]);
                    assert(fields@.len() == texts(fields@).len());
                    assert(texts(fields@)[0] == fields[0]@);
                }
                digest_text(fields[self.pos].as_str())
            },
            Err(_) => vstd::pervasive::unreached(),
        }
    }

    /// Deletes the field from the row stored as `stored`: its content leaves
    /// the row's index mapping, and the row is written again with the other
    /// fields, those after it moving down one position. Returns the new bytes
    /// of the row file.
    pub fn delete(&self, table: Table, row: Row, stored: Option<&Vec<u8>>, index: &mut Index, cipher: &Cipher) -> (res: Result<Vec<u8>, DbError>)
        requires
            old(index).wf(),
            table.id < usize::MAX,
            row.pos < usize::MAX,
        ensures
            final(index).wf(),
            match read_spec(*cipher, table.id as nat, row.pos as nat, bytes_of(stored)) {
                Err(e) => res == Err::<Vec<u8>, DbError>(e) && final(index)@ == old(index)@,
                Ok(f) => if self.pos >= f.len() {
                    res == Err::<Vec<u8>, DbError>(DbError::NotFound) && final(index)@ == old(index)@
                } else {
                    let cleared = without_content(old(index)@, table.id as nat, row.pos as nat, f[self.pos as int]);
                    let content = content_without(f, self.pos as int);
                    match res {
                        Ok(b) => write_spec(*cipher, table.id as nat, row.pos as nat, content, bytes_of(stored))
                            == Ok::<Seq<u8>, DbError>(b@) && final(index)@ == with_row(
                            cleared,
                            table.id as nat,
                            row.pos as nat,
                            write_fields(*cipher, table.id as nat, row.pos as nat, content, bytes_of(stored)),
                        ),
                        Err(e) => write_spec(*cipher, table.id as nat, row.pos as nat, content, bytes_of(stored))
                            == Err::<Seq<u8>, DbError>(e) && final(index)@ == cleared,
                    }
                },
            },
    {
        let mut fields = table.read(row, stored, cipher)?;
        if self.pos >= fields.len() {
            return Err(DbError::NotFound);
        }
        let ghost f = texts(fields@);
        let gone = fields.remove(self.pos);
        proof {
            assert(texts(fields@) =~= f.remove(self.pos as int));
        }
        index.remove(table.id, row.pos, &gone);
        let content = join_lines(&fields);
        table.write(content.as_str(), row, stored, index, cipher)
    }
}

/// The row position a file name stands for: a decimal number below `usize::MAX`.
/// The metadata file, like any other name, stands for none.
pub open spec fn row_position(name: Seq<char>) -> Option<usize> {
    match parse_decimal(name) {
        Some(r) => if r < usize::MAX {
            Some(r)
        } else {
            None
        },
        None => None,
    }
}

/// The names and bytes of a table's files.
pub open spec fn files_view(files: Seq<(String, Vec<u8>)>) -> Seq<(Seq<char>, Seq<u8>)> {
    files.map_values(|p: (String, Vec<u8>)| (p.0@, p.1@))
}

/// The rows that the files of table `t` hold, each with its position, in the
/// order of the files; or the error of the first row file that fails to decode.
pub open spec fn init_rows(c: Cipher, t: nat, files: Seq<(Seq<char>, Seq<u8>)>) -> Result<Seq<(usize, Seq<Seq<char>>)>, DbError>
    decreases files.len(),
{
    if files.len() == 0 {
        Ok(Seq::empty())
    } else {
        match init_rows(c, t, files.drop_last()) {
            Err(e) => Err(e),
            Ok(done) => match row_position(files.last().0) {
                None => Ok(done),
                Some(r) => match parse_spec(c, t, r as nat, files.last().1) {
                    Some(f) => Ok(done.push((r, f))),
                    None => Err(DbError::CryptoError),
                },
            },
        }
    }
}

/// The index after the rows are set, in order, in the slot of table `t`.
pub open spec fn load_rows(v: Seq<Seq<Map<Seq<char>, usize>>>, t: nat, rows: Seq<(usize, Seq<Seq<char>>)>) -> Seq<Seq<Map<Seq<char>, usize>>>
    decreases rows.len(),
{
    if rows.len() == 0 {
        v
    } else {
        with_row(load_rows(v, t, rows.drop_last()), t, rows.last().0 as nat, rows.last().1)
    }
}

spec fn decoded_view(s: Seq<(usize, Vec<String>)>) -> Seq<(usize, Seq<Seq<char>>)> {
    s.map_values(|p: (usize, Vec<String>)| (p.0, texts(p.1@)))
}

/// Rebuilds the index slot of `table` from its files, given as names and
/// bytes: the slot is emptied, then each row file, its name a row position, is
/// decoded and its fields set as that row's mapping. Other files are passed
/// over. A row file that fails to decode fails the whole rebuild, and leaves
/// the index as it was.
pub fn init(table: Table, files: &Vec<(String, Vec<u8>)>, index: &mut Index, cipher: &Cipher) -> (res: Result<(), DbError>)
    requires
        old(index).wf(),
        table.id < usize::MAX,
    ensures
        final(index).wf(),
        match init_rows(*cipher, table.id as nat, files_view(files@)) {
            Ok(rows) => res == Ok::<(), DbError>(()) && final(index)@ == load_rows(with_empty_table(old(index)@, table.id as nat), table.id as nat, rows),
            Err(e) => res == Err::<(), DbError>(e) && final(index)@ == old(index)@,
        },
{
    let ghost fv = files_view(files@);
    let ghost before = index@;
    let mut rows: Vec<(usize, Vec<String>)> = Vec::new();
    let mut i: usize = 0;
    proof {
        assert(fv.take(0) =~= Seq::<(Seq<char>, Seq<u8>)>::empty());
        assert(decoded_view(rows@) =~= Seq::<(usize, Seq<Seq<char>>)>::empty());
    }
    while i < files.len()
        invariant
            i <= files.len(),
            fv == files_view(files@),
            index.wf(),
            index@ == before,
            forall|j: int| 0 <= j < rows.len() ==> (#[trigger] rows@[j]).0 < usize::MAX,
            init_rows(*cipher, table.id as nat, fv.take(i as int)) == Ok::<Seq<(usize, Seq<Seq<char>>)>, DbError>(decoded_view(rows@)),
        decreases files.len() - i,
    {
        proof {
            assert(fv.take(i + 1).drop_last() =~= fv.take(i as int));
            assert(fv.take(i + 1).last() == (files[i as int].0@, files[i as int].1@));
        }
        let pos = parse_row_number(files[i].0.as_str());
        let ghost last = fv.take(i + 1).last();
        proof {
            assert(pos == parse_decimal(last.0));
            assert(init_rows(*cipher, table.id as nat, fv.take(i + 1)) == match row_position(last.0) {
                None => Ok(decoded_view(rows@)),
                Some(r) => match parse_spec(*cipher, table.id as nat, r as nat, last.1) {
                    Some(f) => Ok(decoded_view(rows@).push((r, f))),
                    None => Err(DbError::CryptoError),
                },
            });
        }
        match pos {
            Some(r) => {
                if r < usize::MAX {
                    match parse_fields(cipher, table.id, r, &files[i].1) {
                        Ok(f) => {
                            let ghost fv2 = texts(f@);
                            let ghost old_rows = rows@;
                            rows.push((r, f));
                            proof {
                                assert(rows@.drop_last() =~= old_rows);
                                assert(decoded_view(rows@) =~= decoded_view(old_rows).push((r, fv2)));
                                assert(row_position(last.0) == Some(r));
                                assert(init_rows(*cipher, table.id as nat, fv.take(i + 1)) == Ok::<Seq<(usize, Seq<Seq<char>>)>, DbError>(decoded_view(rows@)));
                            }
                        },
                        Err(e) => {
                            proof {
                                lemma_init_prefix_fails(*cipher, table.id as nat, fv, i + 1);
                            }
                            return Err(e);
                        },
                    }
                }
            },
            None => {},
        }
        i = i + 1;
    }
    proof {
        assert(fv.take(files.len() as int) =~= fv);
    }
    let ghost start = with_empty_table(index@, table.id as nat);
    let ghost dv = decoded_view(rows@);
    index.reset_table(table.id);
    let mut k: usize = 0;
    while k < rows.len()
        invariant
            k <= rows.len(),
            table.id < usize::MAX,
            index.wf(),
            dv == decoded_view(rows@),
            forall|j: int| 0 <= j < rows.len() ==> (#[trigger] rows@[j]).0 < usize::MAX,
            index@ == load_rows(start, table.id as nat, dv.take(k as int)),
        decreases rows.len() - k,
    {
        proof {
            assert(dv.take(k + 1).drop_last() =~= dv.take(k as int));
            assert(dv.take(k + 1).last() == (rows@[k as int].0, texts(rows@[k as int].1@)));
        }
        index.set_row(table.id, rows[k].0, &rows[k].1);
        k = k + 1;
    }
    proof {
        assert(dv.take(rows.len() as int) =~= dv);
    }
    Ok(())
}

proof fn lemma_init_prefix_fails(c: Cipher, t: nat, files: Seq<(Seq<char>, Seq<u8>)>, k: int)
    requires
        0 <= k <= files.len(),
        init_rows(c, t, files.take(k)) is Err,
    ensures
        init_rows(c, t, files) == init_rows(c, t, files.take(k)),
    decreases files.len() - k,
{
    if k < files.len() {
        assert(files.take(k + 1).drop_last() =~= files.take(k));
        lemma_init_prefix_fails(c, t, files, k + 1);
    } else {
        assert(files.take(k) =~= files);
    }
}

} // verus!
