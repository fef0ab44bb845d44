//! The line scanner: splitting program text into lines and lines into
//! whitespace-delimited tokens, preserving 1-based line numbers.

use vstd::prelude::*;

verus! {

/// The intra-line whitespace characters: the ASCII blanks other than the
/// line separator `'\n'`, which is handled by the line splitter.
pub open spec fn is_space(c: char) -> bool {
    c == ' ' || c == '\t' || c == '\r' || c == '\u{b}' || c == '\u{c}'
}

/// Splits `s[i..]` into lines at `'\n'`, with `cur` the partial line read
/// so far.  A final line without a terminating `'\n'` is kept; input ending
/// in `'\n'` produces no empty extra line.
pub open spec fn split_lines(s: Seq<char>, i: int, cur: Seq<char>) -> Seq<Seq<char>>
    decreases s.len() - i,
{
    if i < 0 || i >= s.len() {
        if cur.len() > 0 {
            seq![cur]
        } else {
            seq![]
        }
    } else if s[i] == '\n' {
        seq![cur] + split_lines(s, i + 1, seq![])
    } else {
        split_lines(s, i + 1, cur.push(s[i]))
    }
}

/// The lines of a program text.
pub open spec fn lines_of(s: Seq<char>) -> Seq<Seq<char>> {
    split_lines(s, 0, seq![])
}

/// Splits `line[i..]` into maximal runs of non-space characters, with `cur`
/// the partial token read so far.
pub open spec fn tokenize(line: Seq<char>, i: int, cur: Seq<char>) -> Seq<Seq<char>>
    decreases line.len() - i,
{
    if i < 0 || i >= line.len() {
        if cur.len() > 0 {
            seq![cur]
        } else {
            seq![]
        }
    } else if is_space(line[i]) {
        if cur.len() > 0 {
            seq![cur] + tokenize(line, i + 1, seq![])
        } else {
            tokenize(line, i + 1, seq![])
        }
    } else {
        tokenize(line, i + 1, cur.push(line[i]))
    }
}

/// The whitespace-delimited tokens of one line.
pub open spec fn tokens_of(line: Seq<char>) -> Seq<Seq<char>> {
    tokenize(line, 0, seq![])
}

/// Copies the characters of a string into a vector.
pub fn to_char_vec(s: &str) -> (r: Vec<char>)
    ensures
        r@ == s@,
{
    let n: usize = s.unicode_len();
    let mut r: Vec<char> = Vec::new();
    let mut i: usize = 0;
    while i < n
        invariant
            n == s@.len(),
            0 <= i <= n,
            r@ == s@.take(i as int),
        decreases n - i,
    {
        let c = s.get_char(i);
        r.push(c);
        i = i + 1;
        proof {
            assert(r@ =~= s@.take(i as int));
        }
    }
    proof {
        assert(s@.take(n as int) =~= s@);
    }
    r
}

/// Splits program text, given as characters, into its lines.
pub fn split_program(s: &Vec<char>) -> (r: Vec<Vec<char>>)
    ensures
        r.deep_view() == lines_of(s@),
{
    let mut r: Vec<Vec<char>> = Vec::new();
    let mut cur: Vec<char> = Vec::new();
    let n = s.len();
    let mut i: usize = 0;
    while i < n
        invariant
            0 <= i <= n,
            n == s@.len(),
            lines_of(s@) == r.deep_view() + split_lines(s@, i as int, cur@),
        decreases n - i,
    {
        let c = s[i];
        if c == '\n' {
            let ghost rprev = r.deep_view();
            let ghost curv = cur@;
            r.push(cur);
            cur = Vec::new();
            proof {
                assert(r.deep_view() =~~= rprev.push(curv));
                assert(rprev + (seq![curv] + split_lines(s@, i as int + 1, seq![]))
                    =~~= rprev.push(curv) + split_lines(s@, i as int + 1, seq![]));
            }
        } else {
            cur.push(c);
        }
        i = i + 1;
    }
    if cur.len() > 0 {
        let ghost rprev = r.deep_view();
        let ghost curv = cur@;
        r.push(cur);
        proof {
            assert(r.deep_view() =~~= rprev.push(curv));
            assert(rprev + seq![curv] =~~= rprev.push(curv));
        }
    } else {
        proof {
            assert(r.deep_view() + split_lines(s@, n as int, cur@) =~= r.deep_view());
        }
    }
    r
}

/// Splits one line, given as characters, into its tokens.
pub fn tokenize_line(line: &Vec<char>) -> (r: Vec<Vec<char>>)
    ensures
        r.deep_view() == tokens_of(line@),
{
    let mut r: Vec<Vec<char>> = Vec::new();
    let mut cur: Vec<char> = Vec::new();
    let n = line.len();
    let mut i: usize = 0;
    while i < n
        invariant
            0 <= i <= n,
            n == line@.len(),
            tokens_of(line@) == r.deep_view() + tokenize(line@, i as int, cur@),
        decreases n - i,
    {
        let c = line[i];
        if c == ' ' || c == '\t' || c == '\r' || c == '\u{b}' || c == '\u{c}' {
            if cur.len() > 0 {
                let ghost rprev = r.deep_view();
                let ghost curv = cur@;
                r.push(cur);
                cur = Vec::new();
                proof {
                    assert(r.deep_view() =~~= rprev.push(curv));
                    assert(rprev + (seq![curv] + tokenize(line@, i as int + 1, seq![]))
                        =~~= rprev.push(curv) + tokenize(line@, i as int + 1, seq![]));
                }
            } else {
                proof {
                    assert(cur@ =~= seq![]);
                }
            }
        } else {
            cur.push(c);
        }
        i = i + 1;
    }
    if cur.len() > 0 {
        let ghost rprev = r.deep_view();
        let ghost curv = cur@;
        r.push(cur);
        proof {
            assert(r.deep_view() =~~= rprev.push(curv));
            assert(rprev + seq![curv] =~~= rprev.push(curv));
        }
    } else {
        proof {
            assert(r.deep_view() + tokenize(line@, n as int, cur@) =~= r.deep_view());
        }
    }
    r
}

} // verus!
