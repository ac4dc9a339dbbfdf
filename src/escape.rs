use vstd::prelude::*;

use crate::field_codec::SEALED_DELIMITER;

verus! {

/// The byte that starts an escape inside a sealed chunk of a row file.
pub const ESCAPE: u8 = 0x5C;

/// The byte that follows `ESCAPE` where the chunk held the delimiter.
pub const ESCAPED_DELIMITER: u8 = 0x2E;

/// How one byte of a sealed chunk is written: the delimiter becomes
/// `ESCAPE ESCAPED_DELIMITER`, the escape byte is doubled, others stand as they are.
pub open spec fn escape_byte(b: u8) -> Seq<u8> {
    if b == SEALED_DELIMITER {
        seq![ESCAPE, ESCAPED_DELIMITER]
    } else if b == ESCAPE {
        seq![ESCAPE, ESCAPE]
    } else {
        seq![b]
    }
}

/// A sealed chunk as written to the row file, free of the delimiter.
pub open spec fn escape(c: Seq<u8>) -> Seq<u8>
    decreases c.len(),
{
    if c.len() == 0 {
        Seq::empty()
    } else {
        escape_byte(c[0]) + escape(c.skip(1))
    }
}

/// The sealed chunk that a run of the row file stands for, or `None` where an
/// escape byte is not followed by one of its two continuations.
pub open spec fn unescape(c: Seq<u8>) -> Option<Seq<u8>>
    decreases c.len(),
{
    if c.len() == 0 {
        Some(Seq::empty())
    } else if c[0] == ESCAPE {
        if c.len() >= 2 && (c[1] == ESCAPE || c[1] == ESCAPED_DELIMITER) {
            match unescape(c.skip(2)) {
                Some(rest) => Some(
                    seq![
                        if c[1] == ESCAPE {
                            ESCAPE
                        } else {
                            SEALED_DELIMITER
                        },
                    ] + rest,
                ),
                None => None,
            }
        } else {
            None
        }
    } else {
        match unescape(c.skip(1)) {
            Some(rest) => Some(seq![c[0]] + rest),
            None => None,
        }
    }
}

pub proof fn lemma_escape_append(a: Seq<u8>, b: Seq<u8>)
    ensures
        escape(a + b) == escape(a) + escape(b),
    decreases a.len(),
{
    if a.len() == 0 {
        assert(a + b =~= b);
        assert(escape(a) + escape(b) =~= escape(b));
    } else {
        lemma_escape_append(a.skip(1), b);
        assert((a + b)[0] == a[0]);
        assert((a + b).skip(1) =~= a.skip(1) + b);
        assert(escape_byte(a[0]) + (escape(a.skip(1)) + escape(b)) =~= escape(a) + escape(b));
    }
}

/// An escaped chunk holds no delimiter, and is empty only where the chunk is.
pub proof fn lemma_escape_shape(c: Seq<u8>)
    ensures
        !escape(c).contains(SEALED_DELIMITER),
        escape(c).len() >= c.len(),
    decreases c.len(),
{
    if c.len() > 0 {
        lemma_escape_shape(c.skip(1));
        let h = escape_byte(c[0]);
        let e = escape(c);
        assert(e == h + escape(c.skip(1)));
        if e.contains(SEALED_DELIMITER) {
            let k = choose|k: int| 0 <= k < e.len() && e[k] == SEALED_DELIMITER;
            if k < h.len() {
                assert(h[k] == SEALED_DELIMITER);
            } else {
                assert(escape(c.skip(1))[k - h.len()] == SEALED_DELIMITER);
            }
        }
    }
}

/// Unescaping undoes escaping.
pub proof fn lemma_unescape_escape(c: Seq<u8>)
    ensures
        unescape(escape(c)) == Some(c),
    decreases c.len(),
{
    if c.len() > 0 {
        lemma_unescape_escape(c.skip(1));
        let e = escape(c);
        let h = escape_byte(c[0]);
        assert(e == h + escape(c.skip(1)));
        if c[0] == SEALED_DELIMITER || c[0] == ESCAPE {
            assert(e.skip(2) =~= escape(c.skip(1)));
        } else {
            assert(e.skip(1) =~= escape(c.skip(1)));
        }
        assert(seq![c[0]] + c.skip(1) =~= c);
    }
}

/// Writes a sealed chunk with its delimiter and escape bytes escaped.
pub fn escape_chunk(c: &Vec<u8>) -> (r: Vec<u8>)
    ensures
        r@ == escape(c@),
{
    let mut out: Vec<u8> = Vec::new();
    let mut i: usize = 0;
    while i < c.len()
        invariant
            i <= c.len(),
            out@ == escape(c@.take(i as int)),
        decreases c.len() - i,
    {
        let b = c[i];
        proof {
            lemma_escape_append(c@.take(i as int), seq![b]);
            assert(c@.take(i + 1) =~= c@.take(i as int) + seq![b]);
            assert(seq![b].skip(1) =~= Seq::<u8>::empty());
            assert(seq![b][0] == b);
            assert(escape(seq![b].skip(1)).len() == 0);
            assert(escape(seq![b]) =~= escape_byte(b) + escape(seq![b].skip(1)));
            assert(escape(seq![b]) =~= escape_byte(b));
        }
        if b == SEALED_DELIMITER {
            out.push(ESCAPE);
            out.push(ESCAPED_DELIMITER);
        } else if b == ESCAPE {
            out.push(ESCAPE);
            out.push(ESCAPE);
        } else {
            out.push(b);
        }
        proof {
            assert(out@ =~= escape(c@.take(i as int)) + escape_byte(b));
        }
        i = i + 1;
    }
    proof {
        assert(c@.take(c.len() as int) =~= c@);
    }
    out
}

/// Recovers the sealed chunk that a run of an encrypted row file stands for.
pub fn unescape_chunk(c: &Vec<u8>) -> (r: Option<Vec<u8>>)
    ensures
        match r {
            Some(v) => unescape(c@) == Some(v@),
            None => unescape(c@) is None,
        },
{
    let mut out: Vec<u8> = Vec::new();
    let mut i: usize = 0;
    proof {
        assert(c@.skip(0) =~= c@);
        assert(out@ + Seq::<u8>::empty() =~= out@);
    }
    while i < c.len()
        invariant
            i <= c.len(),
            unescape(c@) == match unescape(c@.skip(i as int)) {
                Some(rest) => Some(out@ + rest),
                None => None,
            },
        decreases c.len() - i,
    {
        let ghost s = c@.skip(i as int);
        let b = c[i];
        assert(s[0] == b);
        if b == ESCAPE {
            if i + 1 < c.len() && (c[i + 1] == ESCAPE || c[i + 1] == ESCAPED_DELIMITER) {
                let x = if c[i + 1] == ESCAPE {
                    ESCAPE
                } else {
                    SEALED_DELIMITER
                };
                proof {
                    assert(s[1] == c[i + 1]);
                    assert(s.skip(2) =~= c@.skip(i + 2));
                    match unescape(c@.skip(i + 2)) {
                        Some(rest) => {
                            assert(out@ + (seq![x] + rest) =~= out@.push(x) + rest);
                        },
                        None => {},
                    }
                }
                out.push(x);
                i = i + 2;
            } else {
                proof {
                    if i + 1 < c.len() {
                        assert(s[1] == c[i + 1]);
                    }
                }
                return None;
            }
        } else {
            proof {
                assert(s.skip(1) =~= c@.skip(i + 1));
                match unescape(c@.skip(i + 1)) {
                    Some(rest) => {
                        assert(out@ + (seq![b] + rest) =~= out@.push(b) + rest);
                    },
                    None => {},
                }
            }
            out.push(b);
            i = i + 1;
        }
    }
    proof {
        assert(c@.skip(i as int) =~= Seq::<u8>::empty());
        assert(out@ + Seq::<u8>::empty() =~= out@);
    }
    Some(out)
}

} // verus!
