//! Line splitting and line numbering of byte text.

use vstd::prelude::*;

verus! {

pub const NEWLINE: u8 = 10;

pub const CARRIAGE_RETURN: u8 = 13;

pub const SPACE: u8 = 32;

/// Width that line numbers are padded to.
pub const NUMBER_WIDTH: usize = 4;

/// The pieces of `s` between newline bytes; there is one more piece than
/// there are newlines.
pub open spec fn raw_lines(s: Seq<u8>) -> Seq<Seq<u8>>
    decreases s.len(),
{
    if s.len() == 0 {
        seq![Seq::empty()]
    } else {
        let r = raw_lines(s.drop_last());
        if s.last() == NEWLINE {
            r.push(Seq::empty())
        } else {
            r.update(r.len() - 1, r.last().push(s.last()))
        }
    }
}

/// A line that ended with `\r\n` loses its `\r`.
pub open spec fn strip_cr(l: Seq<u8>) -> Seq<u8> {
    if l.len() > 0 && l.last() == CARRIAGE_RETURN {
        l.drop_last()
    } else {
        l
    }
}

/// The lines of `s`: split at `\n`, each terminated line loses a trailing
/// `\r`, and a final empty piece (text ending in `\n`, or empty text) is no line.
pub open spec fn text_lines(s: Seq<u8>) -> Seq<Seq<u8>> {
    let r = raw_lines(s);
    let done = r.drop_last().map_values(|l: Seq<u8>| strip_cr(l));
    if r.last().len() == 0 {
        done
    } else {
        done.push(r.last())
    }
}

pub open spec fn views(v: Seq<Vec<u8>>) -> Seq<Seq<u8>> {
    v.map_values(|x: Vec<u8>| x@)
}

pub proof fn lemma_raw_lines_len(s: Seq<u8>)
    ensures
        raw_lines(s).len() >= 1,
        raw_lines(s).len() + raw_lines(s).last().len() <= s.len() + 1,
    decreases s.len(),
{
    if s.len() > 0 {
        lemma_raw_lines_len(s.drop_last());
    }
}

/// There are no more lines than bytes.
pub proof fn lemma_text_lines_len(s: Seq<u8>)
    ensures
        text_lines(s).len() <= s.len(),
{
    lemma_raw_lines_len(s);
}

/// Splits `s` into its lines.
pub fn split_lines(s: &[u8]) -> (r: Vec<Vec<u8>>)
    ensures
        views(r@) == text_lines(s@),
{
    let mut out: Vec<Vec<u8>> = Vec::new();
    let mut cur: Vec<u8> = Vec::new();
    let mut i: usize = 0;
    proof {
        assert(s@.subrange(0, 0) =~= Seq::<u8>::empty());
        assert(views(out@) =~= raw_lines(s@.subrange(0, 0)).drop_last().map_values(
            |l: Seq<u8>| strip_cr(l),
        ));
    }
    while i < s.len()
        invariant
            0 <= i <= s@.len(),
            views(out@) == raw_lines(s@.subrange(0, i as int)).drop_last().map_values(
                |l: Seq<u8>| strip_cr(l),
            ),
            cur@ == raw_lines(s@.subrange(0, i as int)).last(),
        decreases s.len() - i,
    {
        let ghost pre = s@.subrange(0, i as int);
        let ghost next = s@.subrange(0, i + 1);
        proof {
            assert(next.drop_last() =~= pre);
            lemma_raw_lines_len(pre);
        }
        let b = s[i];
        if b == NEWLINE {
            let line = strip_trailing_cr(cur);
            let ghost old_out = out@;
            out.push(line);
            cur = Vec::new();
            proof {
                let r = raw_lines(pre);
                assert(raw_lines(next) == r.push(Seq::<u8>::empty()));
                assert(raw_lines(next).drop_last() =~= r);
                assert(r =~= r.drop_last().push(r.last()));
                assert(views(out@) =~= views(old_out).push(line@));
                assert(views(out@) =~= raw_lines(next).drop_last().map_values(
                    |l: Seq<u8>| strip_cr(l),
                ));
            }
        } else {
            cur.push(b);
            proof {
                assert(raw_lines(next).drop_last() =~= raw_lines(pre).drop_last());
            }
        }
        i = i + 1;
    }
    proof {
        assert(s@.subrange(0, s@.len() as int) =~= s@);
        lemma_raw_lines_len(s@);
    }
    if cur.len() > 0 {
        out.push(cur);
        proof {
            assert(views(out@) =~= text_lines(s@));
        }
    }
    out
}

fn strip_trailing_cr(line: Vec<u8>) -> (r: Vec<u8>)
    ensures
        r@ == strip_cr(line@),
{
    let mut line = line;
    let n = line.len();
    if n > 0 && line[n - 1] == CARRIAGE_RETURN {
        line.pop();
    }
    line
}

/// Appends the bytes of `b` to `out`.
pub fn push_all(out: &mut Vec<u8>, b: &[u8])
    ensures
        final(out)@ == old(out)@ + b@,
{
    let mut i: usize = 0;
    while i < b.len()
        invariant
            0 <= i <= b@.len(),
            out@ == old(out)@ + b@.subrange(0, i as int),
        decreases b.len() - i,
    {
        out.push(b[i]);
        i = i + 1;
        proof {
            assert(out@ =~= old(out)@ + b@.subrange(0, i as int));
        }
    }
    proof {
        assert(b@.subrange(0, b@.len() as int) =~= b@);
    }
}

/// The decimal digits of `n`, most significant first.
pub open spec fn decimal(n: nat) -> Seq<u8>
    decreases n,
{
    if n < 10 {
        seq![(48 + n) as u8]
    } else {
        decimal(n / 10).push((48 + n % 10) as u8)
    }
}

/// `s` followed by spaces up to width `w`.
pub open spec fn pad_right(s: Seq<u8>, w: nat) -> Seq<u8> {
    if s.len() >= w {
        s
    } else {
        s + Seq::new((w - s.len()) as nat, |_i: int| SPACE)
    }
}

/// A line shown under its 1-based number `n`.
pub open spec fn numbered_line(n: nat, line: Seq<u8>) -> Seq<u8> {
    pad_right(decimal(n), NUMBER_WIDTH as nat) + seq![SPACE] + line
}

/// The decimal digits of `n`.
pub fn decimal_digits(n: usize) -> (r: Vec<u8>)
    ensures
        r@ == decimal(n as nat),
    decreases n,
{
    if n < 10 {
        let d: u8 = 48 + n as u8;
        vec![d]
    } else {
        let mut v = decimal_digits(n / 10);
        let d: u8 = 48 + (n % 10) as u8;
        v.push(d);
        v
    }
}

/// `line` prefixed with its left-aligned number `n` and one space.
pub fn number_line(n: usize, line: &[u8]) -> (r: Vec<u8>)
    ensures
        r@ == numbered_line(n as nat, line@),
{
    let mut out = decimal_digits(n);
    let ghost digits = out@;
    while out.len() < NUMBER_WIDTH
        invariant
            digits.len() <= out@.len() <= NUMBER_WIDTH || out@.len() == digits.len(),
            out@ == digits + Seq::new((out@.len() - digits.len()) as nat, |_i: int| SPACE),
        decreases NUMBER_WIDTH - out.len(),
    {
        out.push(SPACE);
        proof {
            assert(out@ =~= digits + Seq::new((out@.len() - digits.len()) as nat, |_i: int| SPACE));
        }
    }
    proof {
        if digits.len() >= NUMBER_WIDTH {
            assert(out@ =~= digits);
        } else {
            assert(out@ =~= pad_right(digits, NUMBER_WIDTH as nat));
        }
    }
    out.push(SPACE);
    let mut i: usize = 0;
    let ghost head = out@;
    while i < line.len()
        invariant
            0 <= i <= line@.len(),
            out@ == head + line@.subrange(0, i as int),
        decreases line.len() - i,
    {
        out.push(line[i]);
        i = i + 1;
        proof {
            assert(out@ =~= head + line@.subrange(0, i as int));
        }
    }
    proof {
        assert(line@.subrange(0, line@.len() as int) =~= line@);
        assert(out@ =~= numbered_line(n as nat, line@));
    }
    out
}

} // verus!
