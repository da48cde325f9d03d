use vstd::prelude::*;

use crate::in_bounds;

verus! {

/// The whitespace characters that separate the two coordinate tokens of a
/// move string.
pub open spec fn is_ws(c: char) -> bool {
    c == ' ' || c == '\t' || c == '\n' || c == '\r'
}

/// Executable mirror of `is_ws`.
pub fn is_ws_char(c: char) -> (r: bool)
    ensures
        r == is_ws(c),
{
    c == ' ' || c == '\t' || c == '\n' || c == '\r'
}

/// What a coordinate token denotes: file letter 'a'..'h' maps to column
/// 0..7 and rank digit '1'..'8' maps to row 7..0; anything else is invalid.
pub open spec fn spec_parse_position(s: Seq<char>) -> Option<(int, int)> {
    if s.len() == 2 && 'a' <= s[0] && s[0] <= 'h' && '1' <= s[1] && s[1] <= '8' {
        Some((56 - s[1] as int, s[0] as int - 97))
    } else {
        None
    }
}

/// The two-character token denoting board coordinate (r, c).
pub open spec fn spec_encode_position(r: int, c: int) -> Seq<char> {
    seq![file_char(c), rank_char(r)]
}

/// The file letter of column `c`.
pub open spec fn file_char(c: int) -> char {
    if c == 0 {
        'a'
    } else if c == 1 {
        'b'
    } else if c == 2 {
        'c'
    } else if c == 3 {
        'd'
    } else if c == 4 {
        'e'
    } else if c == 5 {
        'f'
    } else if c == 6 {
        'g'
    } else {
        'h'
    }
}

/// The rank digit of row `r` (row 0 is rank 8).
pub open spec fn rank_char(r: int) -> char {
    if r == 0 {
        '8'
    } else if r == 1 {
        '7'
    } else if r == 2 {
        '6'
    } else if r == 3 {
        '5'
    } else if r == 4 {
        '4'
    } else if r == 5 {
        '3'
    } else if r == 6 {
        '2'
    } else {
        '1'
    }
}

/// Decodes a coordinate token such as "e2" into (row, column), or reports
/// that the token is malformed.
pub fn parse_position(pos: &str) -> (r: Option<(usize, usize)>)
    ensures
        match r {
            Some((pr, pc)) => spec_parse_position(pos.view()) == Some((pr as int, pc as int)),
            None => spec_parse_position(pos.view()) is None,
        },
{
    let n = pos.unicode_len();
    if n != 2 {
        return None;
    }
    let c0 = pos.get_char(0);
    let c1 = pos.get_char(1);
    if c0 < 'a' || c0 > 'h' || c1 < '1' || c1 > '8' {
        return None;
    }
    let col = (c0 as u32 - 97) as usize;
    let row = (56 - c1 as u32) as usize;
    Some((row, col))
}

/// Encodes board coordinate (r, c) as its two-character token.
pub fn encode_position(r: usize, c: usize) -> (s: String)
    requires
        r < 8,
        c < 8,
    ensures
        s.view() == spec_encode_position(r as int, c as int),
{
    let f = file_str(c);
    let k = rank_str(r);
    let s = String::from_str(f).concat(k);
    proof {
        assert(s.view() =~= spec_encode_position(r as int, c as int));
    }
    s
}

/// The file letter of column `c`, as a one-character string.
fn file_str(c: usize) -> (s: &'static str)
    requires
        c < 8,
    ensures
        s.view() =~= seq![file_char(c as int)],
{
    if c == 0 {
        proof { reveal_strlit("a"); }
        "a"
    } else if c == 1 {
        proof { reveal_strlit("b"); }
        "b"
    } else if c == 2 {
        proof { reveal_strlit("c"); }
        "c"
    } else if c == 3 {
        proof { reveal_strlit("d"); }
        "d"
    } else if c == 4 {
        proof { reveal_strlit("e"); }
        "e"
    } else if c == 5 {
        proof { reveal_strlit("f"); }
        "f"
    } else if c == 6 {
        proof { reveal_strlit("g"); }
        "g"
    } else {
        proof { reveal_strlit("h"); }
        "h"
    }
}

/// The rank digit of row `r`, as a one-character string.
fn rank_str(r: usize) -> (s: &'static str)
    requires
        r < 8,
    ensures
        s.view() =~= seq![rank_char(r as int)],
{
    if r == 0 {
        proof { reveal_strlit("8"); }
        "8"
    } else if r == 1 {
        proof { reveal_strlit("7"); }
        "7"
    } else if r == 2 {
        proof { reveal_strlit("6"); }
        "6"
    } else if r == 3 {
        proof { reveal_strlit("5"); }
        "5"
    } else if r == 4 {
        proof { reveal_strlit("4"); }
        "4"
    } else if r == 5 {
        proof { reveal_strlit("3"); }
        "3"
    } else if r == 6 {
        proof { reveal_strlit("2"); }
        "2"
    } else {
        proof { reveal_strlit("1"); }
        "1"
    }
}

/// Encoding a coordinate and decoding the token again yields the original
/// coordinate, for every square of the board.
pub proof fn lemma_position_roundtrip(r: int, c: int)
    requires
        in_bounds(r, c),
    ensures
        spec_parse_position(spec_encode_position(r, c)) == Some((r, c)),
{
}

/// Length of the leading run of non-whitespace characters.
pub open spec fn non_ws_prefix_len(s: Seq<char>) -> nat
    decreases s.len(),
{
    if s.len() == 0 || is_ws(s[0]) {
        0
    } else {
        1 + non_ws_prefix_len(s.skip(1))
    }
}

proof fn lemma_non_ws_prefix_len_le(s: Seq<char>)
    ensures
        non_ws_prefix_len(s) <= s.len(),
    decreases s.len(),
{
    if s.len() != 0 && !is_ws(s[0]) {
        lemma_non_ws_prefix_len_le(s.skip(1));
    }
}

/// The maximal whitespace-separated tokens of `s`, in order.
pub open spec fn token_split(s: Seq<char>) -> Seq<Seq<char>>
    decreases s.len(),
    via token_split_decreases
{
    if s.len() == 0 {
        Seq::empty()
    } else if is_ws(s[0]) {
        token_split(s.skip(1))
    } else {
        seq![s.take(non_ws_prefix_len(s) as int)] + token_split(s.skip(non_ws_prefix_len(s) as int))
    }
}

#[via_fn]
proof fn token_split_decreases(s: Seq<char>) {
    if s.len() != 0 && !is_ws(s[0]) {
        lemma_non_ws_prefix_len_le(s);
    }
}

/// Skipping one leading whitespace character does not change the tokens.
proof fn lemma_token_split_ws(s: Seq<char>, i: int)
    requires
        0 <= i < s.len(),
        is_ws(s[i]),
    ensures
        token_split(s.skip(i)) == token_split(s.skip(i + 1)),
{
    assert(s.skip(i)[0] == s[i]);
    assert(s.skip(i).skip(1) =~= s.skip(i + 1));
}

/// If the characters from `j` up to `i` are a maximal non-whitespace run,
/// they form the first token of the suffix starting at `j`.
proof fn lemma_token_split_token(s: Seq<char>, j: int, i: int)
    requires
        0 <= j < i <= s.len(),
        forall|k: int| j <= k < i ==> !is_ws(s[k]),
        i == s.len() || is_ws(s[i]),
    ensures
        token_split(s.skip(j)) == seq![s.subrange(j, i)] + token_split(s.skip(i)),
{
    lemma_prefix_len_eq(s.skip(j), i - j);
    assert(s.skip(j).take(i - j) =~= s.subrange(j, i));
    assert(s.skip(j).skip(i - j) =~= s.skip(i));
    assert(!is_ws(s.skip(j)[0]));
}

proof fn lemma_prefix_len_eq(s: Seq<char>, m: int)
    requires
        0 <= m <= s.len(),
        forall|k: int| 0 <= k < m ==> !is_ws(#[trigger] s[k]),
        m == s.len() || is_ws(s[m]),
    ensures
        non_ws_prefix_len(s) == m,
    decreases m,
{
    if m == 0 {
    } else {
        assert(!is_ws(s[0]));
        lemma_prefix_len_eq(s.skip(1), m - 1);
    }
}

/// What a full move string denotes: exactly two coordinate tokens, both
/// valid, or nothing.
pub open spec fn spec_parse_move(s: Seq<char>) -> Option<((int, int), (int, int))> {
    let ts = token_split(s);
    if ts.len() == 2 {
        match (spec_parse_position(ts[0]), spec_parse_position(ts[1])) {
            (Some(f), Some(t)) => Some((f, t)),
            _ => None,
        }
    } else {
        None
    }
}

/// Splits a move string into its two coordinate tokens and decodes both,
/// rejecting any other shape of input.
pub fn parse_move_text(s: &str) -> (r: Option<((usize, usize), (usize, usize))>)
    ensures
        match r {
            Some((f, t)) => spec_parse_move(s.view()) == Some(
                (
                    (f.0 as int, f.1 as int),
                    (t.0 as int, t.1 as int),
                ),
            ),
            None => spec_parse_move(s.view()) is None,
        },
{
    let n = s.unicode_len();
    let mut i: usize = 0;
    let mut tok_count: usize = 0;
    let mut tok1: (usize, usize) = (0, 0);
    let mut tok2: (usize, usize) = (0, 0);
    let ghost mut found: Seq<Seq<char>> = Seq::empty();

    proof {
        assert(s.view().skip(0) =~= s.view());
        assert(found + token_split(s.view()) =~= token_split(s.view()));
    }
    loop
        invariant
            n == s.view().len(),
            i <= n,
            tok_count == found.len(),
            token_split(s.view()) == found + token_split(s.view().skip(i as int)),
            tok_count >= 1 ==> tok1.0 <= tok1.1 <= n && found[0] == s.view().subrange(
                tok1.0 as int,
                tok1.1 as int,
            ),
            tok_count >= 2 ==> tok2.0 <= tok2.1 <= n && found[1] == s.view().subrange(
                tok2.0 as int,
                tok2.1 as int,
            ),
            tok_count <= 2,
        ensures
            token_split(s.view()).len() == tok_count,
            tok_count >= 1 ==> tok1.0 <= tok1.1 <= n && token_split(s.view())[0] == s.view()
                .subrange(tok1.0 as int, tok1.1 as int),
            tok_count >= 2 ==> tok2.0 <= tok2.1 <= n && token_split(s.view())[1] == s.view()
                .subrange(tok2.0 as int, tok2.1 as int),
        decreases n - i + 1,
    {
        let ghost i0 = i;
        // skip leading whitespace
        while i < n && is_ws_char(s.get_char(i))
            invariant
                n == s.view().len(),
                i0 <= i <= n,
                token_split(s.view()) == found + token_split(s.view().skip(i as int)),
            decreases n - i,
        {
            proof {
                lemma_token_split_ws(s.view(), i as int);
            }
            i += 1;
        }
        if i == n {
            proof {
                assert(s.view().skip(n as int) =~= Seq::<char>::empty());
                assert(token_split(s.view()) =~= found);
            }
            break;
        }
        if tok_count == 2 {
            // a third token follows: the string cannot be a move
            proof {
                let tail = s.view().skip(i as int);
                assert(!is_ws(tail[0]));
                assert(token_split(tail).len() >= 1);
                assert(token_split(s.view()).len() == found.len() + token_split(tail).len());
            }
            return None;
        }
        let start = i;
        while i < n && !is_ws_char(s.get_char(i))
            invariant
                n == s.view().len(),
                i0 <= start <= i <= n,
                start < n,
                !is_ws(s.view()[start as int]),
                forall|k: int| start <= k < i ==> !is_ws(#[trigger] s.view()[k]),
            decreases n - i,
        {
            i += 1;
        }
        proof {
            assert(i > start);
            lemma_token_split_token(s.view(), start as int, i as int);
            found = found.push(s.view().subrange(start as int, i as int));
            assert(found =~= found.subrange(0, found.len() - 1).push(found.last()));
        }
        if tok_count == 0 {
            tok1 = (start, i);
        } else {
            tok2 = (start, i);
        }
        tok_count += 1;
    }

    if tok_count != 2 {
        return None;
    }
    let t1 = s.substring_char(tok1.0, tok1.1);
    let t2 = s.substring_char(tok2.0, tok2.1);
    let p1 = parse_position(t1);
    let p2 = parse_position(t2);
    match (p1, p2) {
        (Some(f), Some(t)) => Some((f, t)),
        _ => None,
    }
}


/// The rendered text of a move: the two encoded coordinates separated by
/// one space.
pub open spec fn spec_move_text(fr: int, fc: int, tr: int, tc: int) -> Seq<char> {
    spec_encode_position(fr, fc) + seq![' '] + spec_encode_position(tr, tc)
}

/// Rendering any move as text and parsing the text again yields the same
/// move: what the engine prints, it also accepts.
pub proof fn lemma_move_text_roundtrip(fr: int, fc: int, tr: int, tc: int)
    requires
        in_bounds(fr, fc),
        in_bounds(tr, tc),
    ensures
        spec_parse_move(spec_move_text(fr, fc, tr, tc)) == Some(((fr, fc), (tr, tc))),
{
    let s = spec_move_text(fr, fc, tr, tc);
    assert(s.len() == 5);
    assert(s[0] == file_char(fc) && s[1] == rank_char(fr) && s[2] == ' ' && s[3] == file_char(
        tc,
    ) && s[4] == rank_char(tr));
    assert(!is_ws(s[0]) && !is_ws(s[1]) && is_ws(s[2]) && !is_ws(s[3]) && !is_ws(s[4]));
    assert(s.skip(0) =~= s);
    lemma_token_split_token(s, 0, 2);
    lemma_token_split_ws(s, 2);
    lemma_token_split_token(s, 3, 5);
    assert(s.skip(5) =~= Seq::<char>::empty());
    assert(token_split(s.skip(5)) =~= Seq::<Seq<char>>::empty());
    let ts = token_split(s);
    assert(ts =~= seq![s.subrange(0, 2), s.subrange(3, 5)]);
    assert(s.subrange(0, 2) =~= spec_encode_position(fr, fc));
    assert(s.subrange(3, 5) =~= spec_encode_position(tr, tc));
    lemma_position_roundtrip(fr, fc);
    lemma_position_roundtrip(tr, tc);
}

} // verus!
