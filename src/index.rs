use vstd::prelude::*;

use crate::text::texts;

verus! {

/// One content of a row and the position of the field that holds it.
pub struct IndexEntry {
    content: String,
    field: usize,
}

/// The reverse index: for each table id and row position, a mapping from
/// field content to field position.
///
/// Each row's mapping is held as a list of entries with distinct contents
/// rather than a `HashMap<String, usize>`: vstd specifies `HashMap` only for
/// key types that obey its key model, and `String` is not among them, so
/// nothing could be proved of a lookup by content.
pub struct Index {
    tables: Vec<Vec<Vec<IndexEntry>>>,
}

/// The mapping that a list of entries stands for; a later entry overrides an earlier one.
spec fn entries_map(s: Seq<IndexEntry>) -> Map<Seq<char>, usize>
    decreases s.len(),
{
    if s.len() == 0 {
        Map::empty()
    } else {
        entries_map(s.drop_last()).insert(s.last().content@, s.last().field)
    }
}

spec fn distinct_contents(s: Seq<IndexEntry>) -> bool {
    forall|i: int, j: int|
        0 <= i < s.len() && 0 <= j < s.len() && i != j ==> (#[trigger] s[i]).content@ != (
        #[trigger] s[j]).content@
}

/// The mapping of a row holding `fields`: each content to the last position that holds it.
pub open spec fn fields_map(fields: Seq<Seq<char>>) -> Map<Seq<char>, usize>
    decreases fields.len(),
{
    if fields.len() == 0 {
        Map::empty()
    } else {
        fields_map(fields.drop_last()).insert(fields.last(), (fields.len() - 1) as usize)
    }
}

/// `s` padded with `fill` up to length `n`.
pub open spec fn pad<A>(s: Seq<A>, n: nat, fill: A) -> Seq<A> {
    if s.len() >= n {
        s
    } else {
        s + Seq::new((n - s.len()) as nat, |_i: int| fill)
    }
}

/// The index with slots for table `t` and, within it, for row `r`, empty where new.
pub open spec fn grown(v: Seq<Seq<Map<Seq<char>, usize>>>, t: nat, r: nat) -> Seq<
    Seq<Map<Seq<char>, usize>>,
> {
    let v1 = pad(v, t + 1, Seq::empty());
    v1.update(t as int, pad(v1[t as int], r + 1, Map::empty()))
}

/// The index after the mapping of row `r` in table `t` is set to that of `fields`.
pub open spec fn with_row(
    v: Seq<Seq<Map<Seq<char>, usize>>>,
    t: nat,
    r: nat,
    fields: Seq<Seq<char>>,
) -> Seq<Seq<Map<Seq<char>, usize>>> {
    let g = grown(v, t, r);
    g.update(t as int, g[t as int].update(r as int, fields_map(fields)))
}

/// The index after the slot of table `t` is emptied of rows, created if absent.
pub open spec fn with_empty_table(v: Seq<Seq<Map<Seq<char>, usize>>>, t: nat) -> Seq<
    Seq<Map<Seq<char>, usize>>,
> {
    pad(v, t + 1, Seq::empty()).update(t as int, Seq::empty())
}

/// The index after row `r` of table `t` is deleted: the last slot of a table
/// is removed, any other slot is emptied; an absent slot is left as it is.
pub open spec fn without_row(v: Seq<Seq<Map<Seq<char>, usize>>>, t: nat, r: nat) -> Seq<
    Seq<Map<Seq<char>, usize>>,
> {
    if t < v.len() && r < v[t as int].len() {
        if r + 1 == v[t as int].len() {
            v.update(t as int, v[t as int].drop_last())
        } else {
            v.update(t as int, v[t as int].update(r as int, Map::empty()))
        }
    } else {
        v
    }
}

/// The index after table `t` is deleted: the last table slot is removed, any
/// other is emptied of rows; an absent slot is left as it is.
pub open spec fn without_table(v: Seq<Seq<Map<Seq<char>, usize>>>, t: nat) -> Seq<
    Seq<Map<Seq<char>, usize>>,
> {
    if t < v.len() {
        if t + 1 == v.len() {
            v.drop_last()
        } else {
            v.update(t as int, Seq::empty())
        }
    } else {
        v
    }
}

/// The index after `content` is taken out of the mapping of row `r` in table `t`.
pub open spec fn without_content(
    v: Seq<Seq<Map<Seq<char>, usize>>>,
    t: nat,
    r: nat,
    content: Seq<char>,
) -> Seq<Seq<Map<Seq<char>, usize>>> {
    if t < v.len() && r < v[t as int].len() {
        v.update(t as int, v[t as int].update(r as int, v[t as int][r as int].remove(content)))
    } else {
        v
    }
}

proof fn lemma_entries_map(s: Seq<IndexEntry>)
    requires
        distinct_contents(s),
    ensures
        forall|k: Seq<char>|
            #[trigger] entries_map(s).contains_key(k) <==> exists|i: int|
                0 <= i < s.len() && (#[trigger] s[i]).content@ == k,
        forall|i: int|
            0 <= i < s.len() ==> entries_map(s).contains_key((#[trigger] s[i]).content@)
                && entries_map(s)[s[i].content@] == s[i].field,
    decreases s.len(),
{
    if s.len() > 0 {
        let init = s.drop_last();
        assert(distinct_contents(init)) by {
            assert forall|i: int, j: int|
                0 <= i < init.len() && 0 <= j < init.len() && i != j implies (#[trigger] init[i]).content@
                != (#[trigger] init[j]).content@ by {
                assert(init[i] == s[i] && init[j] == s[j]);
            }
        }
        lemma_entries_map(init);
        assert forall|k: Seq<char>|
            #[trigger] entries_map(s).contains_key(k) implies exists|i: int|
                0 <= i < s.len() && (#[trigger] s[i]).content@ == k by {
            if k == s.last().content@ {
                assert(s[s.len() - 1].content@ == k);
            } else {
                assert(entries_map(init).contains_key(k));
                let i = choose|i: int| 0 <= i < init.len() && (#[trigger] init[i]).content@ == k;
                assert(s[i] == init[i]);
            }
        }
        assert forall|i: int| 0 <= i < s.len() implies entries_map(s).contains_key(
            (#[trigger] s[i]).content@,
        ) && entries_map(s)[s[i].content@] == s[i].field by {
            if i < s.len() - 1 {
                assert(s[i] == init[i]);
                assert(s[i].content@ != s[s.len() - 1].content@);
            }
        }
    }
}

proof fn lemma_fields_map_len(fields: Seq<Seq<char>>)
    ensures
        forall|k: Seq<char>|
            #[trigger] fields_map(fields).contains_key(k) ==> fields_map(fields)[k] < fields.len(),
        forall|k: Seq<char>|
            #[trigger] fields_map(fields).contains_key(k) <==> fields.contains(k),
    decreases fields.len(),
{
    if fields.len() > 0 {
        let init = fields.drop_last();
        lemma_fields_map_len(init);
        assert forall|k: Seq<char>| #[trigger] fields_map(fields).contains_key(k) implies fields.contains(k) by {
            if k == fields.last() {
                assert(fields[fields.len() - 1] == k);
            } else {
                assert(fields_map(init).contains_key(k));
                assert(init.contains(k));
                let i = choose|i: int| 0 <= i < init.len() && init[i] == k;
                assert(fields[i] == k);
            }
        }
        assert forall|k: Seq<char>| fields.contains(k) implies #[trigger] fields_map(fields).contains_key(k) by {
            let i = choose|i: int| 0 <= i < fields.len() && fields[i] == k;
            if i < init.len() {
                assert(init[i] == k);
                assert(init.contains(k));
                assert(fields_map(init).contains_key(k));
            } else {
                assert(fields[i] == fields.last());
            }
        }
        assert forall|k: Seq<char>|
            #[trigger] fields_map(fields).contains_key(k) implies fields_map(fields)[k] < fields.len() by {
            if k != fields.last() {
                assert(fields_map(init).contains_key(k));
            }
        }
    }
}

/// Finds the entry of `row` whose content is `term`.
fn find_entry(row: &Vec<IndexEntry>, term: &String) -> (r: Option<usize>)
    ensures
        match r {
            Some(k) => k < row.len() && row[k as int].content@ == term@,
            None => forall|k: int| 0 <= k < row.len() ==> (#[trigger] row[k]).content@ != term@,
        },
{
    let mut k: usize = 0;
    while k < row.len()
        invariant
            k <= row.len(),
            forall|j: int| 0 <= j < k ==> (#[trigger] row[j]).content@ != term@,
        decreases row.len() - k,
    {
        if row[k].content == *term {
            return Some(k);
        }
        k = k + 1;
    }
    None
}

/// Looks `term` up in one row mapping.
fn row_lookup(row: &Vec<IndexEntry>, term: &String) -> (r: Option<usize>)
    requires
        distinct_contents(row@),
    ensures
        match r {
            Some(f) => entries_map(row@).contains_key(term@) && entries_map(row@)[term@] == f,
            None => !entries_map(row@).contains_key(term@),
        },
{
    proof {
        lemma_entries_map(row@);
    }
    match find_entry(row, term) {
        Some(k) => Some(row[k].field),
        None => None,
    }
}

/// Maps `content` to `f` in the row, replacing any entry with that content.
fn row_put(row: &mut Vec<IndexEntry>, content: String, f: usize)
    requires
        distinct_contents(old(row)@),
    ensures
        distinct_contents(final(row)@),
        entries_map(final(row)@) == entries_map(old(row)@).insert(content@, f),
{
    proof {
        lemma_entries_map(row@);
    }
    let ghost before = row@;
    match find_entry(row, &content) {
        Some(k) => {
            let ghost key = content@;
            row.set(k, IndexEntry { content, field: f });
            proof {
                assert(distinct_contents(row@)) by {
                    assert forall|i: int, j: int|
                        0 <= i < row@.len() && 0 <= j < row@.len() && i != j implies (
                        #[trigger] row@[i]).content@ != (#[trigger] row@[j]).content@ by {
                        if i != k && j != k {
                            assert(row@[i] == before[i] && row@[j] == before[j]);
                        } else if i == k {
                            assert(row@[j] == before[j]);
                        } else {
                            assert(row@[i] == before[i]);
                        }
                    }
                }
                lemma_entries_map(row@);
                let m1 = entries_map(row@);
                let m2 = entries_map(before).insert(key, f);
                assert forall|x: Seq<char>| #[trigger] m1.contains_key(x) <==> m2.contains_key(x) by {
                    if m1.contains_key(x) {
                        let i = choose|i: int| 0 <= i < row@.len() && (#[trigger] row@[i]).content@ == x;
                        if i != k {
                            assert(before[i] == row@[i]);
                        }
                    }
                    if m2.contains_key(x) && x != key {
                        let i = choose|i: int| 0 <= i < before.len() && (#[trigger] before[i]).content@ == x;
                        assert(before[i] == row@[i]);
                    }
                    if x == key {
                        assert(row@[k as int].content@ == x);
                    }
                }
                assert forall|x: Seq<char>| #[trigger] m1.contains_key(x) implies m1[x] == m2[x] by {
                    let i = choose|i: int| 0 <= i < row@.len() && (#[trigger] row@[i]).content@ == x;
                    if i != k {
                        assert(before[i] == row@[i]);
                    }
                }
                assert(m1 =~= m2);
            }
        },
        None => {
            row.push(IndexEntry { content, field: f });
            proof {
                assert(row@.drop_last() =~= before);
                assert(distinct_contents(row@)) by {
                    assert forall|i: int, j: int|
                        0 <= i < row@.len() && 0 <= j < row@.len() && i != j implies (
                        #[trigger] row@[i]).content@ != (#[trigger] row@[j]).content@ by {
                        if i < before.len() && j < before.len() {
                            assert(row@[i] == before[i] && row@[j] == before[j]);
                        } else if i < before.len() {
                            assert(row@[i] == before[i]);
                        } else {
                            assert(row@[j] == before[j]);
                        }
                    }
                }
            }
        },
    }
}

/// Takes `content` out of the row's mapping.
fn row_remove(row: &mut Vec<IndexEntry>, content: &String)
    requires
        distinct_contents(old(row)@),
    ensures
        distinct_contents(final(row)@),
        entries_map(final(row)@) == entries_map(old(row)@).remove(content@),
{
    proof {
        lemma_entries_map(row@);
    }
    let ghost before = row@;
    match find_entry(row, content) {
        Some(k) => {
            let _gone = row.remove(k);
            proof {
                assert(distinct_contents(row@)) by {
                    assert forall|i: int, j: int|
                        0 <= i < row@.len() && 0 <= j < row@.len() && i != j implies (
                        #[trigger] row@[i]).content@ != (#[trigger] row@[j]).content@ by {
                        let bi = if i < k { i } else { i + 1 };
                        let bj = if j < k { j } else { j + 1 };
                        assert(row@[i] == before[bi] && row@[j] == before[bj]);
                    }
                }
                lemma_entries_map(row@);
                let m1 = entries_map(row@);
                let m2 = entries_map(before).remove(content@);
                assert forall|x: Seq<char>| #[trigger] m1.contains_key(x) <==> m2.contains_key(x) by {
                    if m1.contains_key(x) {
                        let i = choose|i: int| 0 <= i < row@.len() && (#[trigger] row@[i]).content@ == x;
                        let bi = if i < k { i } else { i + 1 };
                        assert(row@[i] == before[bi]);
                    }
                    if m2.contains_key(x) {
                        let i = choose|i: int| 0 <= i < before.len() && (#[trigger] before[i]).content@ == x;
                        assert(i != k);
                        let ri = if i < k { i } else { i - 1 };
                        assert(row@[ri] == before[i]);
                    }
                }
                assert forall|x: Seq<char>| #[trigger] m1.contains_key(x) implies m1[x] == m2[x] by {
                    let i = choose|i: int| 0 <= i < row@.len() && (#[trigger] row@[i]).content@ == x;
                    let bi = if i < k { i } else { i + 1 };
                    assert(row@[i] == before[bi]);
                }
                assert(m1 =~= m2);
            }
        },
        None => {
            proof {
                assert(entries_map(before).remove(content@) =~= entries_map(before));
            }
        },
    }
}

/// The entries of a row holding `fields`.
fn row_of_fields(fields: &Vec<String>) -> (row: Vec<IndexEntry>)
    ensures
        distinct_contents(row@),
        entries_map(row@) == fields_map(texts(fields@)),
{
    let ghost v = texts(fields@);
    let mut row: Vec<IndexEntry> = Vec::new();
    let mut j: usize = 0;
    while j < fields.len()
        invariant
            j <= fields.len(),
            v == texts(fields@),
            distinct_contents(row@),
            entries_map(row@) == fields_map(v.take(j as int)),
        decreases fields.len() - j,
    {
        proof {
            assert(v.take(j + 1).drop_last() =~= v.take(j as int));
            assert(v.take(j + 1).last() == fields[j as int]@);
        }
        row_put(&mut row, fields[j].clone(), j);
        j = j + 1;
    }
    proof {
        assert(v.take(fields.len() as int) =~= v);
        assert(distinct_contents(Seq::<IndexEntry>::empty()));
    }
    row
}

spec fn row_views(rows: Seq<Vec<IndexEntry>>) -> Seq<Map<Seq<char>, usize>> {
    Seq::new(rows.len(), |r: int| entries_map(rows[r]@))
}

impl View for Index {
    type V = Seq<Seq<Map<Seq<char>, usize>>>;

    closed spec fn view(&self) -> Seq<Seq<Map<Seq<char>, usize>>> {
        Seq::new(self.tables@.len(), |t: int| row_views(self.tables@[t]@))
    }
}

proof fn lemma_pad<A>(s: Seq<A>, n: nat, fill: A)
    ensures
        pad(s, n, fill).len() == if s.len() >= n {
            s.len()
        } else {
            n
        },
        forall|i: int| 0 <= i < s.len() ==> #[trigger] pad(s, n, fill)[i] == s[i],
        forall|i: int| s.len() <= i < n ==> #[trigger] pad(s, n, fill)[i] == fill,
{
}

/// After the mapping of row `r` in table `t` is set, that slot holds the
/// mapping of the fields, and every other existing slot is as it was.
pub proof fn lemma_with_row(v: Seq<Seq<Map<Seq<char>, usize>>>, t: nat, r: nat, fields: Seq<Seq<char>>)
    ensures
        with_row(v, t, r, fields).len() == if v.len() > t { v.len() } else { t + 1 },
        with_row(v, t, r, fields)[t as int][r as int] == fields_map(fields),
        forall|a: int, b: int|
            0 <= a < v.len() && 0 <= b < v[a].len() && (a != t || b != r) ==> #[trigger] with_row(
                v,
                t,
                r,
                fields,
            )[a][b] == v[a][b],
{
    let v1 = pad(v, t + 1, Seq::empty());
    lemma_pad(v, t + 1, Seq::empty());
    lemma_pad(v1[t as int], r + 1, Map::empty());
    assert forall|a: int, b: int|
        0 <= a < v.len() && 0 <= b < v[a].len() && (a != t || b != r) implies #[trigger] with_row(
            v,
            t,
            r,
            fields,
        )[a][b] == v[a][b] by {
        if a == t {
            assert(v1[a] == v[a]);
        }
    }
}

proof fn lemma_view(idx: &Index)
    ensures
        idx@.len() == idx.tables@.len(),
        forall|t: int|
            0 <= t < idx.tables@.len() ==> #[trigger] idx@[t] == row_views(idx.tables@[t]@)
                && idx@[t].len() == idx.tables@[t]@.len(),
{
}

impl Index {
    /// Every row's entries have distinct contents.
    pub closed spec fn wf(&self) -> bool {
        forall|t: int, r: int|
            0 <= t < self.tables@.len() && 0 <= r < self.tables@[t]@.len() ==> distinct_contents(
                #[trigger] self.tables@[t]@[r]@,
            )
    }

    /// An index with no table slots.
    pub fn new() -> (r: Index)
        ensures
            r.wf(),
            r@ == Seq::<Seq<Map<Seq<char>, usize>>>::empty(),
    {
        let r = Index { tables: Vec::new() };
        proof {
            assert(r@ =~= Seq::<Seq<Map<Seq<char>, usize>>>::empty());
        }
        r
    }

    /// The number of table slots.
    pub fn table_count(&self) -> (n: usize)
        ensures
            n == self@.len(),
    {
        self.tables.len()
    }

    /// The number of row slots of table `t` (0 where there is no such slot).
    pub fn row_count(&self, t: usize) -> (n: usize)
        ensures
            n == if t < self@.len() {
                self@[t as int].len()
            } else {
                0
            },
    {
        if t < self.tables.len() {
            self.tables[t].len()
        } else {
            0
        }
    }

    /// Looks `term` up in row `r` of table `t`.
    pub fn lookup(&self, t: usize, r: usize, term: &String) -> (f: Option<usize>)
        requires
            self.wf(),
        ensures
            match f {
                Some(p) => t < self@.len() && r < self@[t as int].len()
                    && self@[t as int][r as int].contains_key(term@)
                    && self@[t as int][r as int][term@] == p,
                None => !(t < self@.len() && r < self@[t as int].len()
                    && self@[t as int][r as int].contains_key(term@)),
            },
    {
        if t < self.tables.len() && r < self.tables[t].len() {
            proof {
                assert(self@[t as int][r as int] == entries_map(self.tables@[t as int]@[r as int]@));
            }
            row_lookup(&self.tables[t][r], term)
        } else {
            None
        }
    }

    /// Makes room for table `t` and, within it, row `r`.
    fn grow(&mut self, t: usize, r: usize)
        requires
            old(self).wf(),
            t < usize::MAX,
            r < usize::MAX,
        ensures
            final(self).wf(),
            final(self)@ == grown(old(self)@, t as nat, r as nat),
    {
        let ghost v0 = self@;
        while self.tables.len() <= t
            invariant
                self.wf(),
                t < usize::MAX,
                self@ == pad(v0, self@.len(), Seq::empty()),
                self@.len() <= t + 1 || self@ == v0,
                self@.len() >= v0.len(),
            decreases t + 1 - self.tables.len(),
        {
            let ghost before = *self;
            self.tables.push(Vec::new());
            proof {
                lemma_view(self);
                lemma_view(&before);
                assert(row_views(self.tables@.last()@) =~= Seq::<Map<Seq<char>, usize>>::empty());
                assert(self@ =~~= before@.push(Seq::empty()));
                assert(before@.push(Seq::empty()) =~~= pad(v0, self@.len(), Seq::empty()));
            }
        }
        proof {
            assert(self@ =~~= pad(v0, t as nat + 1, Seq::empty()));
        }
        let ghost v1 = self@;
        let ghost rows0 = v1[t as int];
        proof {
            lemma_view(self);
        }
        while self.tables[t].len() <= r
            invariant
                self.wf(),
                t < self@.len(),
                r < usize::MAX,
                self@ == v1.update(t as int, pad(rows0, self@[t as int].len(), Map::empty())),
                self@[t as int].len() <= r + 1 || self@[t as int] == rows0,
                self@[t as int].len() >= rows0.len(),
                v1.len() == self@.len(),
            decreases r + 1 - self.tables[t as int].len(),
        {
            let ghost before = self.tables@;
            let ghost bidx = *self;
            self.tables[t].push(Vec::new());
            proof {
                lemma_view(self);
                lemma_view(&bidx);
                assert(entries_map(Seq::<IndexEntry>::empty()) == Map::<Seq<char>, usize>::empty());
                assert(self@[t as int] =~= bidx@[t as int].push(Map::empty()));
                assert forall|a: int| 0 <= a < self@.len() && a != t implies self@[a] == bidx@[a] by {
                    assert(self.tables@[a] == before[a]);
                }
                assert(bidx@[t as int].push(Map::empty()) =~= pad(rows0, self@[t as int].len(), Map::empty()));
                assert(distinct_contents(Seq::<IndexEntry>::empty()));
                assert(self.wf()) by {
                    assert forall|a: int, b: int|
                        0 <= a < self.tables@.len() && 0 <= b < self.tables@[a]@.len() implies distinct_contents(
                            #[trigger] self.tables@[a]@[b]@,
                        ) by {
                        if a != t {
                            assert(self.tables@[a] == before[a]);
                        } else if b < before[a]@.len() {
                            assert(self.tables@[a]@[b] == before[a]@[b]);
                        }
                    }
                }
                let target = v1.update(t as int, pad(rows0, self@[t as int].len(), Map::empty()));
                assert(self@.len() == target.len());
                assert forall|a: int| 0 <= a < self@.len() implies self@[a] == target[a] by {
                    if a != t {
                        assert(self@[a] == bidx@[a]);
                        assert(bidx@[a] == v1[a]);
                    }
                }
                assert(self@ =~= target);
            }
        }
        proof {
            assert(self@ =~~= grown(v0, t as nat, r as nat));
        }
    }

    /// Sets the mapping of row `r` in table `t` to that of `fields`, making room as needed.
    pub fn set_row(&mut self, t: usize, r: usize, fields: &Vec<String>)
        requires
            old(self).wf(),
            t < usize::MAX,
            r < usize::MAX,
        ensures
            final(self).wf(),
            final(self)@ == with_row(old(self)@, t as nat, r as nat, texts(fields@)),
    {
        self.grow(t, r);
        let ghost before = self.tables@;
        proof {
            lemma_view(self);
            lemma_pad(old(self)@, t as nat + 1, Seq::empty());
            lemma_pad(pad(old(self)@, t as nat + 1, Seq::empty())[t as int], r as nat + 1, Map::empty());
            assert(self@.len() > t);
            assert(self@[t as int].len() > r);
            assert(self.tables@[t as int]@.len() > r);
        }
        let row = row_of_fields(fields);
        self.tables[t].set(r, row);
        proof {
            assert(self.wf()) by {
                assert forall|a: int, b: int|
                    0 <= a < self.tables@.len() && 0 <= b < self.tables@[a]@.len() implies distinct_contents(
                        #[trigger] self.tables@[a]@[b]@,
                    ) by {
                    if a != t {
                        assert(self.tables@[a] == before[a]);
                    } else if b != r {
                        assert(self.tables@[a]@[b] == before[a]@[b]);
                    }
                }
            }
            assert(self@ =~~= with_row(old(self)@, t as nat, r as nat, texts(fields@)));
        }
    }

    /// Takes `content` out of the mapping of row `r` in table `t`, where that slot exists.
    pub fn remove(&mut self, t: usize, r: usize, content: &String)
        requires
            old(self).wf(),
        ensures
            final(self).wf(),
            final(self)@ == without_content(old(self)@, t as nat, r as nat, content@),
    {
        if t < self.tables.len() && r < self.tables[t].len() {
            let ghost before = self.tables@;
            row_remove(&mut self.tables[t][r], content);
            proof {
                assert(self.wf()) by {
                    assert forall|a: int, b: int|
                        0 <= a < self.tables@.len() && 0 <= b < self.tables@[a]@.len() implies distinct_contents(
                            #[trigger] self.tables@[a]@[b]@,
                        ) by {
                        if a != t {
                            assert(self.tables@[a] == before[a]);
                        } else if b != r {
                            assert(self.tables@[a]@[b] == before[a]@[b]);
                        }
                    }
                }
                assert(self@ =~~= without_content(old(self)@, t as nat, r as nat, content@));
            }
        }
    }

    /// Deletes the slot of row `r` in table `t`: the table's last slot is
    /// removed, any other is emptied in place.
    pub fn clear_row(&mut self, t: usize, r: usize)
        requires
            old(self).wf(),
        ensures
            final(self).wf(),
            final(self)@ == without_row(old(self)@, t as nat, r as nat),
    {
        if t < self.tables.len() && r < self.tables[t].len() {
            let ghost before = self.tables@;
            if r + 1 == self.tables[t].len() {
                let _gone = self.tables[t].pop();
            } else {
                self.tables[t].set(r, Vec::new());
            }
            proof {
                assert(distinct_contents(Seq::<IndexEntry>::empty()));
                assert(self.wf()) by {
                    assert forall|a: int, b: int|
                        0 <= a < self.tables@.len() && 0 <= b < self.tables@[a]@.len() implies distinct_contents(
                            #[trigger] self.tables@[a]@[b]@,
                        ) by {
                        if a != t {
                            assert(self.tables@[a] == before[a]);
                        } else if b != r {
                            assert(self.tables@[a]@[b] == before[a]@[b]);
                        }
                    }
                }
                assert(self@ =~~= without_row(old(self)@, t as nat, r as nat));
            }
        }
    }

    /// Deletes the slot of table `t`: the last slot is removed, any other is
    /// emptied of rows in place.
    pub fn clear_table(&mut self, t: usize)
        requires
            old(self).wf(),
        ensures
            final(self).wf(),
            final(self)@ == without_table(old(self)@, t as nat),
    {
        if t < self.tables.len() {
            let ghost before = self.tables@;
            if t + 1 == self.tables.len() {
                let _gone = self.tables.pop();
            } else {
                self.tables.set(t, Vec::new());
            }
            proof {
                assert(self.wf()) by {
                    assert forall|a: int, b: int|
                        0 <= a < self.tables@.len() && 0 <= b < self.tables@[a]@.len() implies distinct_contents(
                            #[trigger] self.tables@[a]@[b]@,
                        ) by {
                        assert(self.tables@[a] == before[a]);
                    }
                }
                assert(self@ =~~= without_table(old(self)@, t as nat));
            }
        }
    }

    /// Empties the slot of table `t` of all rows, creating it if absent.
    pub fn reset_table(&mut self, t: usize)
        requires
            old(self).wf(),
            t < usize::MAX,
        ensures
            final(self).wf(),
            final(self)@ == with_empty_table(old(self)@, t as nat),
    {
        self.grow(t, 0);
        let ghost before = self.tables@;
        let ghost grown_idx = *self;
        proof {
            lemma_view(self);
            lemma_pad(old(self)@, t as nat + 1, Seq::empty());
        }
        self.tables.set(t, Vec::new());
        proof {
            lemma_view(self);
            lemma_view(&grown_idx);
            assert(row_views(self.tables@[t as int]@) =~= Seq::<Map<Seq<char>, usize>>::empty());
            assert forall|a: int| 0 <= a < self@.len() && a != t implies self@[a] == grown_idx@[a] by {
                assert(self.tables@[a] == before[a]);
            }
            assert(self.wf()) by {
                assert forall|a: int, b: int|
                    0 <= a < self.tables@.len() && 0 <= b < self.tables@[a]@.len() implies distinct_contents(
                        #[trigger] self.tables@[a]@[b]@,
                    ) by {
                    assert(self.tables@[a] == before[a]);
                }
            }
            let target = with_empty_table(old(self)@, t as nat);
            assert(self@.len() == target.len());
            assert forall|a: int| 0 <= a < self@.len() implies self@[a] == target[a] by {
                if a != t {
                    assert(self@[a] == grown_idx@[a]);
                } else {
                    assert(self@[a] =~= Seq::<Map<Seq<char>, usize>>::empty());
                }
            }
            assert(self@ =~= target);
        }
    }
}

} // verus!
