//! Turning raw text lines into vertex-id pairs.
//!
//! A line is split on whitespace; a line with exactly two tokens denotes an
//! edge and both tokens must be decimal numerals, while a line with any other
//! token count is silently skipped. A two-token line whose tokens are not
//! numerals is a fatal condition: parsing stops and reports the line.

use vstd::prelude::*;

verus! {

/// The bytes on which a line is split into tokens.
pub open spec fn is_space(b: u8) -> bool {
    b == 32 || b == 9 || b == 10 || b == 11 || b == 12 || b == 13
}

/// The whitespace tokenization of `s` from position `i` on, given the token
/// `cur` in progress and the tokens `acc` already completed.
pub open spec fn tokens_from(s: Seq<u8>, i: int, cur: Seq<u8>, acc: Seq<Seq<u8>>) -> Seq<Seq<u8>>
    decreases s.len() - i
    when 0 <= i <= s.len()
{
    if i >= s.len() {
        if cur.len() > 0 {
            acc.push(cur)
        } else {
            acc
        }
    } else if is_space(s[i]) {
        if cur.len() > 0 {
            tokens_from(s, i + 1, Seq::empty(), acc.push(cur))
        } else {
            tokens_from(s, i + 1, cur, acc)
        }
    } else {
        tokens_from(s, i + 1, cur.push(s[i]), acc)
    }
}

/// The whitespace tokenization of a whole line.
pub open spec fn tokens(s: Seq<u8>) -> Seq<Seq<u8>> {
    tokens_from(s, 0, Seq::empty(), Seq::empty())
}

/// A decimal digit byte.
pub open spec fn is_digit(b: u8) -> bool {
    48 <= b <= 57
}

pub open spec fn all_digits(s: Seq<u8>) -> bool {
    forall|i: int| 0 <= i < s.len() ==> is_digit(#[trigger] s[i])
}

/// The value of a sequence of decimal digit bytes, most significant first.
pub open spec fn dec_value(s: Seq<u8>) -> nat
    decreases s.len()
{
    if s.len() == 0 {
        0
    } else {
        (dec_value(s.drop_last()) * 10 + (s.last() - 48)) as nat
    }
}

/// A token the numeric parser accepts: a nonempty run of decimal digits
/// whose value fits in a `u64`.
pub open spec fn valid_u64_token(s: Seq<u8>) -> bool {
    s.len() > 0 && all_digits(s) && dec_value(s) <= u64::MAX
}

/// The value of a digit sequence only grows as digits are appended.
proof fn lemma_dec_value_prefix_le(s: Seq<u8>, j: int)
    requires
        all_digits(s),
        0 <= j <= s.len(),
    ensures
        dec_value(s.take(j)) <= dec_value(s),
    decreases s.len() - j,
{
    if j < s.len() {
        assert(s.take(j + 1).drop_last() =~= s.take(j));
        assert(s.take(j + 1).last() == s[j]);
        assert(dec_value(s.take(j)) <= dec_value(s.take(j + 1)));
        lemma_dec_value_prefix_le(s, j + 1);
        assert(s.take(s.len() as int) =~= s);
    } else {
        assert(s.take(j) =~= s);
    }
}

/// Parses a whole token as a non-negative integer; `None` on anything that
/// is not a decimal numeral fitting in a `u64`.
pub fn parse_u64(tok: &Vec<u8>) -> (r: Option<u64>)
    ensures
        r is Some <==> valid_u64_token(tok@),
        r is Some ==> r->0 == dec_value(tok@),
{
    if tok.len() == 0 {
        return None;
    }
    let mut val: u64 = 0;
    let mut i: usize = 0;
    while i < tok.len()
        invariant
            0 <= i <= tok@.len(),
            all_digits(tok@.take(i as int)),
            val == dec_value(tok@.take(i as int)),
        decreases tok@.len() - i,
    {
        let b = tok[i];
        if b < 48 || b > 57 {
            assert(!all_digits(tok@));
            return None;
        }
        let d = (b - 48) as u64;
        let next: u128 = val as u128 * 10 + d as u128;
        proof {
            assert(tok@.take(i + 1).drop_last() =~= tok@.take(i as int));
            assert(tok@.take(i + 1).last() == tok@[i as int]);
            assert(next == dec_value(tok@.take(i + 1)));
        }
        if next > u64::MAX as u128 {
            proof {
                if all_digits(tok@) {
                    lemma_dec_value_prefix_le(tok@, i + 1);
                }
            }
            return None;
        }
        val = next as u64;
        i = i + 1;
    }
    proof {
        assert(tok@.take(tok@.len() as int) =~= tok@);
    }
    Some(val)
}

/// The views of a sequence of byte vectors.
pub open spec fn seq_views(ts: Seq<Vec<u8>>) -> Seq<Seq<u8>> {
    Seq::new(ts.len(), |i: int| ts[i]@)
}

fn is_space_byte(b: u8) -> (r: bool)
    ensures
        r == is_space(b),
{
    b == 32 || b == 9 || b == 10 || b == 11 || b == 12 || b == 13
}

/// Splits a line into its whitespace-separated tokens.
pub fn tokenize(line: &Vec<u8>) -> (toks: Vec<Vec<u8>>)
    ensures
        seq_views(toks@) == tokens(line@),
{
    let mut toks: Vec<Vec<u8>> = Vec::new();
    let mut cur: Vec<u8> = Vec::new();
    let mut i: usize = 0;
    proof {
        assert(seq_views(toks@) =~= Seq::<Seq<u8>>::empty());
    }
    while i < line.len()
        invariant
            0 <= i <= line@.len(),
            tokens_from(line@, i as int, cur@, seq_views(toks@)) == tokens(line@),
        decreases line@.len() - i,
    {
        let b = line[i];
        if is_space_byte(b) {
            if cur.len() > 0 {
                let ghost prev = seq_views(toks@);
                toks.push(cur);
                cur = Vec::new();
                proof {
                    assert(seq_views(toks@) =~= prev.push(toks@.last()@));
                }
            }
        } else {
            cur.push(b);
        }
        i = i + 1;
    }
    if cur.len() > 0 {
        let ghost prev = seq_views(toks@);
        toks.push(cur);
        proof {
            assert(seq_views(toks@) =~= prev.push(toks@.last()@));
        }
    }
    toks
}

/// A line that denotes an edge: it splits into exactly two tokens.
pub open spec fn line_is_pair(l: Seq<u8>) -> bool {
    tokens(l).len() == 2
}

/// A line the parser accepts: either it is skipped for not having exactly
/// two tokens, or both of its tokens are valid numerals.
pub open spec fn line_ok(l: Seq<u8>) -> bool {
    line_is_pair(l) ==> valid_u64_token(tokens(l)[0]) && valid_u64_token(tokens(l)[1])
}

/// The edge a well-formed two-token line denotes.
pub open spec fn line_pair(l: Seq<u8>) -> (u64, u64) {
    (dec_value(tokens(l)[0]) as u64, dec_value(tokens(l)[1]) as u64)
}

/// The edges denoted by a sequence of lines, in input order; lines without
/// exactly two tokens contribute nothing.
pub open spec fn pairs_of(lines: Seq<Seq<u8>>) -> Seq<(u64, u64)>
    decreases lines.len()
{
    if lines.len() == 0 {
        Seq::empty()
    } else {
        let rest = pairs_of(lines.drop_last());
        if line_is_pair(lines.last()) {
            rest.push(line_pair(lines.last()))
        } else {
            rest
        }
    }
}

/// A line without exactly two tokens is skipped without any other effect:
/// slipping such a line anywhere into the input leaves the parsed edges
/// unchanged, and the line itself can never make parsing fail.
pub proof fn lemma_skipped_line(lines: Seq<Seq<u8>>, i: int, l: Seq<u8>)
    requires
        0 <= i <= lines.len(),
        !line_is_pair(l),
    ensures
        pairs_of(lines.insert(i, l)) == pairs_of(lines),
        line_ok(l),
    decreases lines.len(),
{
    let w = lines.insert(i, l);
    if i == lines.len() {
        assert(w.drop_last() =~= lines);
        assert(w.last() == l);
    } else {
        assert(w.last() == lines.last());
        assert(w.drop_last() =~= lines.drop_last().insert(i, l));
        lemma_skipped_line(lines.drop_last(), i, l);
    }
}

/// A two-token line held a token that is not a `u64` numeral; parsing is
/// fatal there and `line` is the index of the offending input line.
#[derive(Clone, Copy, Debug, PartialEq, Eq, Structural)]
pub struct ParseError {
    pub line: usize,
}

/// Parses every input line, skipping lines without exactly two tokens and
/// failing fast on the first two-token line with a malformed numeral.
pub fn parse_lines(lines: &Vec<Vec<u8>>) -> (r: Result<Vec<(u64, u64)>, ParseError>)
    ensures
        match r {
            Ok(edges) => {
                &&& forall|i: int| 0 <= i < lines@.len() ==> line_ok(#[trigger] lines@[i]@)
                &&& edges@ == pairs_of(seq_views(lines@))
            },
            Err(e) => {
                &&& e.line < lines@.len()
                &&& !line_ok(lines@[e.line as int]@)
                &&& forall|i: int| 0 <= i < e.line ==> line_ok(#[trigger] lines@[i]@)
            },
        },
{
    let mut edges: Vec<(u64, u64)> = Vec::new();
    let mut i: usize = 0;
    while i < lines.len()
        invariant
            0 <= i <= lines@.len(),
            forall|j: int| 0 <= j < i ==> line_ok(#[trigger] lines@[j]@),
            edges@ == pairs_of(seq_views(lines@).take(i as int)),
        decreases lines@.len() - i,
    {
        let ghost l = lines@[i as int]@;
        let toks = tokenize(&lines[i]);
        proof {
            assert(seq_views(lines@).take(i + 1).drop_last() =~= seq_views(lines@).take(i as int));
            assert(seq_views(lines@).take(i + 1).last() == l);
        }
        if toks.len() == 2 {
            assert(toks@[0]@ == tokens(l)[0] && toks@[1]@ == tokens(l)[1]);
            let a = match parse_u64(&toks[0]) {
                Some(a) => a,
                None => {
                    return Err(ParseError { line: i });
                },
            };
            let b = match parse_u64(&toks[1]) {
                Some(b) => b,
                None => {
                    return Err(ParseError { line: i });
                },
            };
            edges.push((a, b));
        }
        i = i + 1;
    }
    proof {
        assert(seq_views(lines@).take(lines@.len() as int) =~= seq_views(lines@));
    }
    Ok(edges)
}

} // verus!
