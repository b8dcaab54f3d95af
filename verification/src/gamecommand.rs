use vstd::prelude::*;

use vstd::string::StrSliceExecFns;

use crate::board::IntersectionState;

verus! {

broadcast use vstd::seq_lib::group_seq_properties;

/// Defines a command to alter the gamestate
#[derive(Clone, Copy, PartialEq, Eq, PartialOrd, Ord, Debug)]
pub enum GameCommand {
    /// Places a state (2) on the intersection at (0, 1)
    Place(usize, usize, IntersectionState),
    /// Undo the previous move
    Undo,
}

/// The character's code with an upper-case letter folded to lower case.
pub open spec fn lower_code(c: char) -> int {
    if 'A' as u32 <= c as u32 && c as u32 <= 'Z' as u32 {
        c as u32 + 32
    } else {
        c as u32 as int
    }
}

/// Case-insensitive equality of two character sequences.
pub open spec fn ci_equal(a: Seq<char>, b: Seq<char>) -> bool {
    a.len() == b.len() && forall|i: int| 0 <= i < a.len() ==> lower_code(a[i]) == lower_code(b[i])
}

/// The character sequence with every space removed.
pub open spec fn despaced(s: Seq<char>) -> Seq<char>
    decreases s.len(),
{
    if s.len() == 0 {
        Seq::empty()
    } else if s.last() == ' ' {
        despaced(s.drop_last())
    } else {
        despaced(s.drop_last()).push(s.last())
    }
}

/// The pieces of a character sequence split at every ';', in order; a split
/// always yields at least one piece.
pub open spec fn split_pieces(s: Seq<char>) -> Seq<Seq<char>>
    decreases s.len(),
{
    if s.len() == 0 {
        seq![Seq::<char>::empty()]
    } else {
        let rest = split_pieces(s.drop_last());
        if s.last() == ';' {
            rest.push(Seq::empty())
        } else {
            rest.update(rest.len() - 1, rest.last().push(s.last()))
        }
    }
}

/// The column index of a letter in the alphabet table, of either case.
pub open spec fn letter_index(c: char) -> Option<int> {
    if 'a' as u32 <= lower_code(c) && lower_code(c) <= 'z' as u32 {
        Some(lower_code(c) - 'a' as u32)
    } else {
        None
    }
}

/// The value of a decimal digit.
pub open spec fn digit_value(c: char) -> Option<int> {
    if '0' as u32 <= c as u32 && c as u32 <= '9' as u32 {
        Some(c as u32 - '0' as u32)
    } else {
        None
    }
}

/// The number a digit sequence denotes, rejecting any non-digit; the empty
/// sequence denotes zero.
pub open spec fn digits_value(t: Seq<char>) -> Option<int>
    decreases t.len(),
{
    if t.len() == 0 {
        Some(0)
    } else {
        match (digits_value(t.drop_last()), digit_value(t.last())) {
            (Some(hi), Some(lo)) => Some(10 * hi + lo),
            _ => None,
        }
    }
}

/// What parsing an unsigned number accepts: an optional leading '+', then at
/// least one digit, with a value that fits the machine word.
pub open spec fn parse_usize(t: Seq<char>) -> Option<int> {
    let ds = if t.len() >= 1 && t[0] == '+' {
        t.drop_first()
    } else {
        t
    };
    if ds.len() == 0 {
        None
    } else {
        match digits_value(ds) {
            Some(v) => if v <= usize::MAX {
                Some(v)
            } else {
                None
            },
            None => None,
        }
    }
}

/// The placement a parameter list denotes: a colour word, a column letter
/// and a 1-indexed row number.
pub open spec fn place_from_pieces(pieces: Seq<Seq<char>>) -> Option<GameCommand> {
    if pieces.len() < 1 {
        None
    } else {
        let state_opt = if ci_equal(pieces[0], "w"@) || ci_equal(pieces[0], "white"@) {
            Some(IntersectionState::White)
        } else if ci_equal(pieces[0], "b"@) || ci_equal(pieces[0], "black"@) {
            Some(IntersectionState::Black)
        } else {
            None
        };
        if state_opt is None {
            None
        } else if pieces.len() < 2 || pieces[1].len() == 0 {
            None
        } else {
            match letter_index(pieces[1][0]) {
                None => None,
                Some(xi) => {
                    if pieces.len() < 3 {
                        None
                    } else {
                        match parse_usize(pieces[2]) {
                            None => None,
                            Some(row) => if row == 0 {
                                None
                            } else {
                                Some(
                                    GameCommand::Place(
                                        xi as usize,
                                        (row - 1) as usize,
                                        state_opt->Some_0,
                                    ),
                                )
                            },
                        }
                    }
                },
            }
        }
    }
}

/// The command a command line denotes, if any: the undo words, or a
/// placement prefixed by a colour token.
pub open spec fn spec_command(s: Seq<char>) -> Option<GameCommand> {
    if ci_equal(s, "undo"@) || ci_equal(s, "u"@) {
        Some(GameCommand::Undo)
    } else if s.len() > 0 && (lower_code(s[0]) == 'w' as u32 || lower_code(s[0]) == 'b' as u32) {
        place_from_pieces(split_pieces(despaced(s)))
    } else {
        None
    }
}

proof fn lemma_digits_value_nonneg(t: Seq<char>)
    ensures
        digits_value(t) matches Some(v) ==> v >= 0,
    decreases t.len(),
{
    if t.len() > 0 {
        lemma_digits_value_nonneg(t.drop_last());
    }
}

proof fn lemma_digits_value_all_digits(t: Seq<char>, k: int)
    requires
        0 <= k < t.len(),
        digits_value(t) is Some,
    ensures
        digit_value(t[k]) is Some,
    decreases t.len(),
{
    if k < t.len() - 1 {
        lemma_digits_value_all_digits(t.drop_last(), k);
    }
}

proof fn lemma_digits_value_prefix(t: Seq<char>, j: int)
    requires
        0 <= j <= t.len(),
        digits_value(t) is Some,
    ensures
        digits_value(t.take(j)) is Some,
        digits_value(t.take(j))->Some_0 <= digits_value(t)->Some_0,
    decreases t.len() - j,
{
    if j == t.len() {
        assert(t.take(j) =~= t);
    } else {
        lemma_digits_value_prefix(t, j + 1);
        assert(t.take(j + 1).drop_last() =~= t.take(j));
        assert(t.take(j + 1).last() == t[j]);
        lemma_digits_value_nonneg(t.take(j));
        lemma_digits_value_all_digits(t, j);
    }
}

/// The characters of a string, in order.
fn chars_of(s: &str) -> (v: Vec<char>)
    ensures
        v@ == s@,
{
    let n = s.unicode_len();
    let mut v: Vec<char> = Vec::new();
    let mut i: usize = 0;
    while i < n
        invariant
            i <= n,
            n == s@.len(),
            v@ == s@.take(i as int),
        decreases n - i,
    {
        let c = s.get_char(i);
        v.push(c);
        proof {
            assert(s@.take(i + 1) =~= s@.take(i as int).push(s@[i as int]));
        }
        i = i + 1;
    }
    proof {
        assert(s@.take(n as int) =~= s@);
    }
    v
}

/// The character's code, upper-case letters folded to lower case.
fn lower_u32(c: char) -> (r: u32)
    ensures
        r as int == lower_code(c),
{
    let u = c as u32;
    if 'A' as u32 <= u && u <= 'Z' as u32 {
        u + 32
    } else {
        u
    }
}

/// Whether a piece equals a word, ignoring letter case.
fn vec_matches_ci(p: &Vec<char>, w: &str) -> (r: bool)
    ensures
        r == ci_equal(p@, w@),
{
    let wl = w.unicode_len();
    if p.len() != wl {
        return false;
    }
    let mut j: usize = 0;
    while j < wl
        invariant
            j <= wl,
            wl == w@.len(),
            p@.len() == wl,
            forall|k: int| 0 <= k < j ==> lower_code(p@[k]) == lower_code(w@[k]),
        decreases wl - j,
    {
        let pc = lower_u32(p[j]);
        let wc = lower_u32(w.get_char(j));
        if pc != wc {
            return false;
        }
        j = j + 1;
    }
    true
}

/// Parses a piece as an unsigned number the way the standard parser would:
/// an optional leading '+', then digits, rejecting overflow.
fn parse_usize_chars(t: &Vec<char>) -> (r: Option<usize>)
    ensures
        parse_usize(t@) is Some ==> (r matches Some(v) && v as int == parse_usize(t@)->Some_0),
        parse_usize(t@) is None ==> r is None,
{
    let mut from: usize = 0;
    if t.len() >= 1 {
        if t[0] == '+' {
            from = 1;
        }
    }
    let ghost ds = if from == 1 {
        t@.drop_first()
    } else {
        t@
    };
    if t.len() == from {
        return None;
    }
    let mut acc: usize = 0;
    let mut j: usize = from;
    while j < t.len()
        invariant
            from <= j <= t@.len(),
            from == 0 || from == 1,
            from == 1 <==> (t@.len() >= 1 && t@[0] == '+'),
            ds == (if from == 1 {
                t@.drop_first()
            } else {
                t@
            }),
            ds.len() == t@.len() - from,
            forall|k: int| 0 <= k < ds.len() ==> ds[k] == t@[k + from],
            digits_value(ds.take(j - from)) == Some(acc as int),
        decreases t@.len() - j,
    {
        let c = t[j];
        let u = c as u32;
        if u < '0' as u32 || u > '9' as u32 {
            proof {
                if digits_value(ds) is Some {
                    lemma_digits_value_all_digits(ds, j - from);
                }
            }
            return None;
        }
        let d = (u - '0' as u32) as usize;
        let ghost k = j - from;
        proof {
            assert(ds.take(k + 1).drop_last() =~= ds.take(k));
            assert(ds.take(k + 1).last() == ds[k]);
            assert(ds[k] == t@[j as int]);
            assert(digit_value(ds[k]) == Some(d as int));
            assert(digits_value(ds.take(k + 1)) == Some(10 * (acc as int) + d as int));
        }
        let big = match acc.checked_mul(10) {
            Some(m) => m.checked_add(d),
            None => None,
        };
        match big {
            Some(vv) => {
                acc = vv;
            },
            None => {
                proof {
                    if digits_value(ds) is Some {
                        lemma_digits_value_prefix(ds, k + 1);
                    }
                }
                return None;
            },
        }
        j = j + 1;
    }
    proof {
        assert(j - from == ds.len());
        assert(ds.take(ds.len() as int) =~= ds);
    }
    Some(acc)
}

impl GameCommand {
    /// Tries to parse a string into a gamecommand
    pub fn try_from_string(input: String) -> (r: Option<GameCommand>)
        ensures
            r == spec_command(input@),
    {
        let s = input.as_str();
        let v = chars_of(s);
        if vec_matches_ci(&v, "undo") || vec_matches_ci(&v, "u") {
            return Some(GameCommand::Undo);
        }
        if v.len() == 0 {
            return None;
        }
        let c0 = lower_u32(v[0]);
        if !(c0 == 'w' as u32 || c0 == 'b' as u32) {
            return None;
        }
        // Drop every space, keeping the remaining characters in order.
        let mut stripped: Vec<char> = Vec::new();
        let mut i: usize = 0;
        while i < v.len()
            invariant
                i <= v@.len(),
                stripped@ == despaced(v@.take(i as int)),
            decreases v@.len() - i,
        {
            let c = v[i];
            proof {
                assert(v@.take(i + 1).drop_last() =~= v@.take(i as int));
                assert(v@.take(i + 1).last() == v@[i as int]);
            }
            if !(c == ' ') {
                stripped.push(c);
            }
            i = i + 1;
        }
        proof {
            assert(v@.take(v@.len() as int) =~= v@);
        }
        // Split the remainder at every ';'.
        let mut pieces: Vec<Vec<char>> = Vec::new();
        let mut cur: Vec<char> = Vec::new();
        let mut k: usize = 0;
        while k < stripped.len()
            invariant
                k <= stripped@.len(),
                pieces@.map_values(|pc: Vec<char>| pc@).push(cur@) == split_pieces(
                    stripped@.take(k as int),
                ),
            decreases stripped@.len() - k,
        {
            let c = stripped[k];
            let ghost pview = pieces@.map_values(|pc: Vec<char>| pc@);
            proof {
                assert(stripped@.take(k + 1).drop_last() =~= stripped@.take(k as int));
                assert(stripped@.take(k + 1).last() == stripped@[k as int]);
            }
            if c == ';' {
                let ghost cur0 = cur@;
                pieces.push(cur);
                cur = Vec::new();
                proof {
                    assert(pieces@.map_values(|pc: Vec<char>| pc@) =~~= pview.push(cur0));
                    assert(pview.push(cur0).push(Seq::<char>::empty()) =~~= split_pieces(
                        stripped@.take(k + 1),
                    ));
                    assert(pieces@.map_values(|pc: Vec<char>| pc@).push(cur@) =~~= split_pieces(
                        stripped@.take(k + 1),
                    ));
                }
            } else {
                let ghost cur0 = cur@;
                cur.push(c);
                proof {
                    let rest = split_pieces(stripped@.take(k as int));
                    assert(rest.last() == cur0);
                    assert(pview.push(cur@) =~~= rest.update(
                        rest.len() - 1,
                        rest.last().push(c),
                    ));
                }
            }
            k = k + 1;
        }
        pieces.push(cur);
        let ghost ps = split_pieces(despaced(input@));
        proof {
            assert(stripped@.take(stripped@.len() as int) =~= stripped@);
            assert(pieces@.map_values(|pc: Vec<char>| pc@) =~~= ps);
        }
        // The colour token.
        let p0 = &pieces[0];
        proof {
            assert(pieces@.map_values(|pc: Vec<char>| pc@)[0] == p0@);
        }
        let state = if vec_matches_ci(p0, "w") || vec_matches_ci(p0, "white") {
            IntersectionState::White
        } else if vec_matches_ci(p0, "b") || vec_matches_ci(p0, "black") {
            IntersectionState::Black
        } else {
            return None;
        };
        // The column letter.
        if pieces.len() < 2 {
            return None;
        }
        let p1 = &pieces[1];
        proof {
            assert(pieces@.map_values(|pc: Vec<char>| pc@)[1] == p1@);
        }
        if p1.len() == 0 {
            return None;
        }
        let l0 = lower_u32(p1[0]);
        if l0 < 'a' as u32 || l0 > 'z' as u32 {
            return None;
        }
        let x = (l0 - 'a' as u32) as usize;
        // The 1-indexed row number.
        if pieces.len() < 3 {
            return None;
        }
        let p2 = &pieces[2];
        proof {
            assert(pieces@.map_values(|pc: Vec<char>| pc@)[2] == p2@);
        }
        let row = match parse_usize_chars(p2) {
            Some(r) => r,
            None => {
                return None;
            },
        };
        if row == 0 {
            return None;
        }
        Some(GameCommand::Place(x, row - 1, state))
    }
}

} // verus!
