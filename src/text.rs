use vstd::prelude::*;

verus! {

/// The pieces of `s` between occurrences of `d`, as `str::split` cuts them:
/// `n` delimiters give `n + 1` pieces, some possibly empty.
pub open spec fn split_on<A>(s: Seq<A>, d: A) -> Seq<Seq<A>>
    decreases s.len(),
{
    if s.len() == 0 {
        seq![Seq::empty()]
    } else {
        let prev = split_on(s.drop_last(), d);
        if s.last() == d {
            prev.push(Seq::empty())
        } else {
            prev.update(prev.len() - 1, prev.last().push(s.last()))
        }
    }
}

/// The pieces joined, with one `d` between consecutive pieces and none after the last.
pub open spec fn join_with<A>(parts: Seq<Seq<A>>, d: A) -> Seq<A>
    decreases parts.len(),
{
    if parts.len() == 0 {
        Seq::empty()
    } else if parts.len() == 1 {
        parts[0]
    } else {
        join_with(parts.drop_last(), d).push(d) + parts.last()
    }
}

pub proof fn lemma_split_len<A>(s: Seq<A>, d: A)
    ensures
        split_on(s, d).len() >= 1,
    decreases s.len(),
{
    if s.len() > 0 {
        lemma_split_len(s.drop_last(), d);
    }
}

/// Appending a run free of the delimiter extends the last piece.
pub proof fn lemma_split_append<A>(a: Seq<A>, b: Seq<A>, d: A)
    requires
        !b.contains(d),
    ensures
        split_on(a + b, d).len() == split_on(a, d).len(),
        split_on(a + b, d) == split_on(a, d).update(
            split_on(a, d).len() - 1,
            split_on(a, d).last() + b,
        ),
    decreases b.len(),
{
    lemma_split_len(a, d);
    if b.len() == 0 {
        assert(a + b =~= a);
        assert(split_on(a, d).last() + b =~= split_on(a, d).last());
        assert(split_on(a, d).update(split_on(a, d).len() - 1, split_on(a, d).last())
            =~= split_on(a, d));
    } else {
        let b0 = b.drop_last();
        assert(!b0.contains(d)) by {
            if b0.contains(d) {
                let k = choose|k: int| 0 <= k < b0.len() && b0[k] == d;
                assert(b[k] == d);
            }
        }
        lemma_split_append(a, b0, d);
        assert((a + b).drop_last() =~= a + b0);
        assert((a + b).last() == b.last());
        assert(b.last() != d) by {
            assert(b[b.len() - 1] == b.last());
        }
        assert(split_on(a, d).last() + b0 + seq![b.last()] =~= split_on(a, d).last() + b);
        assert((split_on(a, d).last() + b0).push(b.last()) =~= split_on(a, d).last() + b);
        assert(split_on(a + b, d) =~= split_on(a, d).update(
            split_on(a, d).len() - 1,
            split_on(a, d).last() + b,
        ));
    }
}

/// Splitting undoes joining when no piece holds the delimiter.
pub proof fn lemma_split_join<A>(parts: Seq<Seq<A>>, d: A)
    requires
        parts.len() >= 1,
        forall|i: int| 0 <= i < parts.len() ==> !(#[trigger] parts[i]).contains(d),
    ensures
        split_on(join_with(parts, d), d) == parts,
    decreases parts.len(),
{
    if parts.len() == 1 {
        let e = Seq::<A>::empty();
        lemma_split_append(e, parts[0], d);
        assert(e + parts[0] =~= parts[0]);
        assert(split_on(e, d) =~= seq![e]);
        assert(seq![e].update(0, e + parts[0]) =~= parts);
    } else {
        let init = parts.drop_last();
        assert forall|i: int| 0 <= i < init.len() implies !(#[trigger] init[i]).contains(d) by {
            assert(init[i] == parts[i]);
        }
        lemma_split_join(init, d);
        let j = join_with(init, d).push(d);
        assert(j.drop_last() =~= join_with(init, d));
        assert(split_on(j, d) == init.push(Seq::empty()));
        assert(!parts.last().contains(d)) by {
            assert(parts[parts.len() - 1] == parts.last());
        }
        lemma_split_append(j, parts.last(), d);
        let e = Seq::<A>::empty();
        assert(e + parts.last() =~= parts.last());
        assert(init.push(e).update(init.len() as int, e + parts.last()) =~= parts);
    }
}


/// The views of a vector of strings.
pub open spec fn texts(v: Seq<String>) -> Seq<Seq<char>> {
    v.map_values(|s: String| s@)
}

/// The views of a vector of byte vectors.
pub open spec fn byte_runs(v: Seq<Vec<u8>>) -> Seq<Seq<u8>> {
    v.map_values(|b: Vec<u8>| b@)
}

/// Cuts `s` at every `'\n'`, as `str::split("\n")` does.
pub fn split_lines(s: &str) -> (r: Vec<String>)
    ensures
        texts(r@) == split_on(s@, '\n'),
{
    let n = s.unicode_len();
    let mut pieces: Vec<String> = Vec::new();
    let mut start: usize = 0;
    let mut i: usize = 0;
    while i < n
        invariant
            n == s@.len(),
            start <= i <= n,
            pieces.len() + 1 == split_on(s@.take(i as int), '\n').len(),
            forall|j: int|
                0 <= j < pieces.len() ==> #[trigger] pieces[j]@ == split_on(
                    s@.take(i as int),
                    '\n',
                )[j],
            split_on(s@.take(i as int), '\n').last() == s@.subrange(start as int, i as int),
        decreases n - i,
    {
        let c = s.get_char(i);
        proof {
            assert(s@.take(i + 1).drop_last() =~= s@.take(i as int));
            assert(s@.take(i + 1).last() == c);
        }
        if c == '\n' {
            let piece = s.substring_char(start, i).to_owned();
            pieces.push(piece);
            start = i + 1;
        } else {
            proof {
                assert(s@.subrange(start as int, i as int).push(c) =~= s@.subrange(
                    start as int,
                    i + 1,
                ));
            }
        }
        i = i + 1;
    }
    let last = s.substring_char(start, n).to_owned();
    pieces.push(last);
    proof {
        assert(s@.take(n as int) =~= s@);
        assert(texts(pieces@) =~= split_on(s@, '\n'));
    }
    pieces
}

/// Cuts `b` at every byte equal to `d`.
pub fn split_bytes(b: &Vec<u8>, d: u8) -> (r: Vec<Vec<u8>>)
    ensures
        byte_runs(r@) == split_on(b@, d),
{
    let mut pieces: Vec<Vec<u8>> = Vec::new();
    let mut cur: Vec<u8> = Vec::new();
    let mut i: usize = 0;
    while i < b.len()
        invariant
            i <= b.len(),
            pieces.len() + 1 == split_on(b@.take(i as int), d).len(),
            forall|j: int|
                0 <= j < pieces.len() ==> #[trigger] pieces[j]@ == split_on(
                    b@.take(i as int),
                    d,
                )[j],
            split_on(b@.take(i as int), d).last() == cur@,
        decreases b.len() - i,
    {
        let x = b[i];
        proof {
            assert(b@.take(i + 1).drop_last() =~= b@.take(i as int));
            assert(b@.take(i + 1).last() == x);
        }
        if x == d {
            let mut done: Vec<u8> = Vec::new();
            std::mem::swap(&mut done, &mut cur);
            pieces.push(done);
        } else {
            cur.push(x);
        }
        i = i + 1;
    }
    pieces.push(cur);
    proof {
        assert(b@.take(b.len() as int) =~= b@);
        assert(byte_runs(pieces@) =~= split_on(b@, d));
    }
    pieces
}

/// The runs joined with one `d` between consecutive runs.
pub fn join_bytes(parts: &Vec<Vec<u8>>, d: u8) -> (r: Vec<u8>)
    ensures
        r@ == join_with(byte_runs(parts@), d),
{
    let mut out: Vec<u8> = Vec::new();
    let mut i: usize = 0;
    while i < parts.len()
        invariant
            i <= parts.len(),
            out@ == join_with(byte_runs(parts@).take(i as int), d),
        decreases parts.len() - i,
    {
        proof {
            let t = byte_runs(parts@).take(i + 1);
            assert(t.drop_last() =~= byte_runs(parts@).take(i as int));
            assert(t.last() == parts[i as int]@);
            if i == 0 {
                assert(byte_runs(parts@).take(0) =~= Seq::<Seq<u8>>::empty());
            }
        }
        if i > 0 {
            out.push(d);
        }
        let mut j: usize = 0;
        let ghost before = out@;
        while j < parts[i].len()
            invariant
                i < parts.len(),
                j <= parts[i as int].len(),
                out@ == before + parts[i as int]@.take(j as int),
            decreases parts[i as int].len() - j,
        {
            out.push(parts[i][j]);
            proof {
                assert(parts[i as int]@.take(j + 1) =~= parts[i as int]@.take(j as int).push(
                    parts[i as int]@[j as int],
                ));
            }
            j = j + 1;
        }
        proof {
            assert(parts[i as int]@.take(j as int) =~= parts[i as int]@);
            let t = byte_runs(parts@).take(i + 1);
            if i == 0 {
                assert(before =~= Seq::<u8>::empty());
                assert(out@ =~= join_with(t, d));
            }
        }
        i = i + 1;
    }
    proof {
        assert(byte_runs(parts@).take(parts.len() as int) =~= byte_runs(parts@));
    }
    out
}

/// The pieces joined with one `'\n'` between consecutive pieces.
pub fn join_lines(parts: &Vec<String>) -> (r: String)
    ensures
        r@ == join_with(texts(parts@), '\n'),
{
    let nl = "\n";
    proof {
        reveal_strlit("\n");
    }
    let mut out = String::new();
    let mut i: usize = 0;
    while i < parts.len()
        invariant
            i <= parts.len(),
            nl@ == seq!['\n'],
            out@ == join_with(texts(parts@).take(i as int), '\n'),
        decreases parts.len() - i,
    {
        proof {
            let t = texts(parts@).take(i + 1);
            assert(t.drop_last() =~= texts(parts@).take(i as int));
            assert(t.last() == parts[i as int]@);
            if i == 0 {
                assert(texts(parts@).take(0) =~= Seq::<Seq<char>>::empty());
            }
        }
        let ghost before = out@;
        if i > 0 {
            out.append(nl);
        }
        out.append(parts[i].as_str());
        proof {
            if i == 0 {
                assert(out@ =~= parts[0]@);
            } else {
                assert(out@ =~= before.push('\n') + parts[i as int]@);
            }
        }
        i = i + 1;
    }
    proof {
        assert(texts(parts@).take(parts.len() as int) =~= texts(parts@));
    }
    out
}


/// The character of a decimal digit.
pub open spec fn digit_char(d: nat) -> char {
    ((d + 48) as u8) as char
}

/// The decimal rendering of `n`, most significant digit first, without leading zeros.
pub open spec fn decimal(n: nat) -> Seq<char>
    decreases n,
{
    if n < 10 {
        seq![digit_char(n)]
    } else {
        decimal(n / 10).push(digit_char(n % 10))
    }
}

pub open spec fn is_digit(c: char) -> bool {
    '0' <= c && c <= '9'
}

/// The value of a run of decimal digits (0 for the empty run).
pub open spec fn digits_value(s: Seq<char>) -> nat
    decreases s.len(),
{
    if s.len() == 0 {
        0
    } else {
        digits_value(s.drop_last()) * 10 + ((s.last() as nat) - 48) as nat
    }
}

/// The number that a non-empty run of decimal digits spells, when it fits a `usize`.
pub open spec fn parse_digits(s: Seq<char>) -> Option<usize> {
    if s.len() > 0 && (forall|i: int| 0 <= i < s.len() ==> is_digit(#[trigger] s[i]))
        && digits_value(s) <= usize::MAX {
        Some(digits_value(s) as usize)
    } else {
        None
    }
}

/// The number that `s` spells as `str::parse::<usize>` reads it: an optional
/// `+`, then a non-empty run of decimal digits whose value fits a `usize`.
pub open spec fn parse_decimal(s: Seq<char>) -> Option<usize> {
    if s.len() > 0 && s[0] == '+' {
        parse_digits(s.skip(1))
    } else {
        parse_digits(s)
    }
}

fn digit_str(d: u64) -> (r: &'static str)
    requires
        d < 10,
    ensures
        r@ == seq![digit_char(d as nat)],
{
    proof {
        reveal_strlit("0");
        reveal_strlit("1");
        reveal_strlit("2");
        reveal_strlit("3");
        reveal_strlit("4");
        reveal_strlit("5");
        reveal_strlit("6");
        reveal_strlit("7");
        reveal_strlit("8");
        reveal_strlit("9");
    }
    if d == 0 {
        "0"
    } else if d == 1 {
        "1"
    } else if d == 2 {
        "2"
    } else if d == 3 {
        "3"
    } else if d == 4 {
        "4"
    } else if d == 5 {
        "5"
    } else if d == 6 {
        "6"
    } else if d == 7 {
        "7"
    } else if d == 8 {
        "8"
    } else {
        "9"
    }
}

/// The decimal rendering of `n`, as `u64::to_string` writes it.
pub fn decimal_string(n: u64) -> (r: String)
    ensures
        r@ == decimal(n as nat),
    decreases n,
{
    if n < 10 {
        String::from_str(digit_str(n))
    } else {
        let mut s = decimal_string(n / 10);
        s.append(digit_str(n % 10));
        s
    }
}

proof fn lemma_digits_value_grows(s: Seq<char>, i: int)
    requires
        0 <= i <= s.len(),
    ensures
        digits_value(s.take(i)) <= digits_value(s),
    decreases s.len() - i,
{
    if i < s.len() {
        lemma_digits_value_grows(s, i + 1);
        assert(s.take(i + 1).drop_last() =~= s.take(i));
    } else {
        assert(s.take(i) =~= s);
    }
}

/// Reads `s` as a row number, as `str::parse::<usize>` does: an optional `+`,
/// then a non-empty run of decimal digits whose value fits a `usize`.
pub fn parse_row_number(s: &str) -> (r: Option<usize>)
    ensures
        r == parse_decimal(s@),
{
    let n = s.unicode_len();
    if n > 0 && s.get_char(0) == '+' {
        let rest = s.substring_char(1, n);
        proof {
            assert(rest@ =~= s@.skip(1));
        }
        parse_digits_exec(rest)
    } else {
        parse_digits_exec(s)
    }
}

fn parse_digits_exec(s: &str) -> (r: Option<usize>)
    ensures
        r == parse_digits(s@),
{
    let n = s.unicode_len();
    if n == 0 {
        return None;
    }
    let mut v: usize = 0;
    let mut i: usize = 0;
    while i < n
        invariant
            n == s@.len(),
            i <= n,
            v == digits_value(s@.take(i as int)),
            forall|k: int| 0 <= k < i ==> is_digit(#[trigger] s@[k]),
        decreases n - i,
    {
        let c = s.get_char(i);
        if !('0' <= c && c <= '9') {
            return None;
        }
        let d = (c as u32 - 48) as usize;
        proof {
            assert(s@.take(i + 1).drop_last() =~= s@.take(i as int));
            assert(s@.take(i + 1).last() == c);
        }
        if v > (usize::MAX - d) / 10 {
            proof {
                lemma_digits_value_grows(s@, i + 1);
                assert(v * 10 + d > usize::MAX) by (nonlinear_arith)
                    requires
                        v > (usize::MAX - d) / 10,
                        d <= 9,
                ;
            }
            return None;
        }
        proof {
            assert(v * 10 + d <= usize::MAX) by (nonlinear_arith)
                requires
                    v <= (usize::MAX - d) / 10,
                    d <= 9,
            ;
        }
        v = v * 10 + d;
        i = i + 1;
    }
    proof {
        assert(s@.take(n as int) =~= s@);
    }
    Some(v)
}

} // verus!
