//! The two players and their marks, and the parsing of a textual move.

use vstd::prelude::*;
use vstd::string::StringSliceAdditionalSpecFns;

use crate::game::GameError;

verus! {

/// One of the two players. `PlayerX` plays the mark 'X', `PlayerO` the mark 'O'.
#[derive(Debug, Clone, Copy, PartialEq, Eq, Structural)]
pub enum Player {
    PlayerX,
    PlayerO,
}

/// The mark a player places on the board.
pub open spec fn spec_mark(p: Player) -> char {
    match p {
        Player::PlayerX => 'X',
        Player::PlayerO => 'O',
    }
}

/// The opposing player.
pub open spec fn spec_opponent(p: Player) -> Player {
    match p {
        Player::PlayerX => Player::PlayerO,
        Player::PlayerO => Player::PlayerX,
    }
}

/// ASCII whitespace, as the move parser strips it: blank, tab, line feed,
/// carriage return.
pub open spec fn is_space(b: u8) -> bool {
    b == 32 || b == 9 || b == 10 || b == 13
}

/// The first position in [a, b) past the leading whitespace.
pub open spec fn trim_lo(s: Seq<u8>, a: int, b: int) -> int
    decreases b - a,
{
    if a >= b || !is_space(s[a]) {
        a
    } else {
        trim_lo(s, a + 1, b)
    }
}

/// The position in [a, b) before the trailing whitespace.
pub open spec fn trim_hi(s: Seq<u8>, a: int, b: int) -> int
    decreases b - a,
{
    if b <= a || !is_space(s[b - 1]) {
        b
    } else {
        trim_hi(s, a, b - 1)
    }
}

/// The position of the first comma in [a, b), or `b` when there is none.
pub open spec fn find_comma(s: Seq<u8>, a: int, b: int) -> int
    decreases b - a,
{
    if a >= b {
        b
    } else if s[a] == 44 {
        a
    } else {
        find_comma(s, a + 1, b)
    }
}

/// An ASCII decimal digit.
pub open spec fn is_digit(b: u8) -> bool {
    48 <= b <= 57
}

/// A nonempty run of decimal digits fills [a, b).
pub open spec fn all_digits(s: Seq<u8>, a: int, b: int) -> bool {
    a < b && forall|i: int| a <= i < b ==> is_digit(#[trigger] s[i])
}

/// The decimal value of the digits in [a, b).
pub open spec fn digits_val(s: Seq<u8>, a: int, b: int) -> int
    decreases b - a,
{
    if b <= a {
        0
    } else {
        digits_val(s, a, b - 1) * 10 + (s[b - 1] - 48)
    }
}

/// The number a piece [a, b) denotes once its surrounding whitespace is
/// stripped; nothing when what remains is not a nonempty digit run.
pub open spec fn piece_val(s: Seq<u8>, a: int, b: int) -> Option<int> {
    let a2 = trim_lo(s, a, b);
    let b2 = trim_hi(s, a2, b);
    if all_digits(s, a2, b2) {
        Some(digits_val(s, a2, b2))
    } else {
        None
    }
}

proof fn lemma_find_comma_range(s: Seq<u8>, a: int, b: int)
    requires
        a <= b,
    ensures
        a <= find_comma(s, a, b) <= b,
    decreases b - a,
{
    if a < b && s[a] != 44 {
        lemma_find_comma_range(s, a + 1, b);
    }
}

/// The numbers of the comma-separated pieces of [a, b), in order; nothing
/// when any piece is not a number.
pub open spec fn piece_vals(s: Seq<u8>, a: int, b: int) -> Option<Seq<int>>
    decreases b - a,
    via piece_vals_decreases
{
    let c = find_comma(s, a, b);
    match piece_val(s, a, c) {
        None => None,
        Some(v) => if c >= b {
            Some(seq![v])
        } else {
            match piece_vals(s, c + 1, b) {
                None => None,
                Some(rest) => Some(seq![v] + rest),
            }
        },
    }
}

#[via_fn]
proof fn piece_vals_decreases(s: Seq<u8>, a: int, b: int) {
    if a <= b {
        lemma_find_comma_range(s, a, b);
    }
}

/// The board coordinates a text line denotes: the line is trimmed, split on
/// commas into numbers, and (row, column) is (the last number, the first
/// number); both must be at most 2. With several commas the later number
/// wins the row, as repeated assignment would have it.
pub open spec fn spec_parse_coords(s: Seq<u8>) -> Option<(int, int)> {
    let lo = trim_lo(s, 0, s.len() as int);
    let hi = trim_hi(s, lo, s.len() as int);
    match piece_vals(s, lo, hi) {
        None => None,
        Some(vs) => if vs.len() >= 2 && vs[0] <= 2 && vs[vs.len() - 1] <= 2 {
            Some((vs[vs.len() - 1], vs[0]))
        } else {
            None
        },
    }
}

fn is_space_b(b: u8) -> (r: bool)
    ensures
        r == is_space(b),
{
    b == 32 || b == 9 || b == 10 || b == 13
}

/// A value capped just above the board bound: values up to 2 are kept, any
/// larger one becomes 3. Enough to compare against 2 without overflow.
pub open spec fn clamped(v: int) -> int {
    if v <= 2 {
        v
    } else {
        3
    }
}

/// The (row, column) pair a text line denotes, per `spec_parse_coords`; the
/// bad-coordinates error when the line does not denote a pair within the
/// board.
pub fn get_input_from_keyboard(player_input: &str) -> (r: Result<(usize, usize), GameError>)
    ensures
        match r {
            Ok(m) => {
                &&& spec_parse_coords(player_input.spec_bytes()) == Some(
                    (m.0 as int, m.1 as int),
                )
                &&& m.0 <= 2
                &&& m.1 <= 2
            },
            Err(e) => {
                &&& spec_parse_coords(player_input.spec_bytes()) is None
                &&& e == GameError::BadCoordinates
            },
        },
{
    let bytes = player_input.as_bytes();
    let ghost s = player_input.spec_bytes();
    let n = bytes.len();

    let mut lo: usize = 0;
    while lo < n && is_space_b(bytes[lo])
        invariant
            lo <= n,
            n == s.len(),
            bytes@ == s,
            trim_lo(s, 0, n as int) == trim_lo(s, lo as int, n as int),
        decreases n - lo,
    {
        lo += 1;
    }
    let mut hi: usize = n;
    while hi > lo && is_space_b(bytes[hi - 1])
        invariant
            lo <= hi <= n,
            n == s.len(),
            bytes@ == s,
            trim_hi(s, lo as int, n as int) == trim_hi(s, lo as int, hi as int),
        decreases hi,
    {
        hi -= 1;
    }
    proof {
        assert(lo as int == trim_lo(s, 0, n as int));
        assert(hi as int == trim_hi(s, lo as int, n as int));
    }

    let mut i = lo;
    let mut got_first = false;
    let mut got_second = false;
    let mut a: usize = 0;
    let mut b: usize = 0;
    let ghost mut vs: Seq<int> = Seq::empty();
    let mut more = true;
    while more
        invariant
            lo <= i <= hi <= n,
            n == s.len(),
            bytes@ == s,
            s == player_input.spec_bytes(),
            lo as int == trim_lo(s, 0, n as int),
            hi as int == trim_hi(s, lo as int, n as int),
            got_first <==> vs.len() >= 1,
            got_second <==> vs.len() >= 2,
            a <= 3,
            b <= 3,
            vs.len() >= 1 ==> a as int == clamped(vs[0]) && vs[0] >= 0,
            vs.len() >= 2 ==> b as int == clamped(vs[vs.len() - 1]) && vs[vs.len() - 1] >= 0,
            more ==> piece_vals(s, lo as int, hi as int) == (match piece_vals(
                s,
                i as int,
                hi as int,
            ) {
                None => None::<Seq<int>>,
                Some(rest) => Some(vs + rest),
            }),
            !more ==> piece_vals(s, lo as int, hi as int) == Some(vs) && vs.len() >= 1,
        decreases hi + 1 - i + (if more {
            1int
        } else {
            0int
        }),
    {
        let ghost i0 = i as int;
        let mut c = i;
        while c < hi && bytes[c] != 44
            invariant
                i <= c <= hi <= n,
                n == s.len(),
                bytes@ == s,
                find_comma(s, i as int, hi as int) == find_comma(s, c as int, hi as int),
            decreases hi - c,
        {
            c += 1;
        }
        proof {
            assert(c as int == find_comma(s, i0, hi as int));
        }

        let mut pa = i;
        while pa < c && is_space_b(bytes[pa])
            invariant
                i <= pa <= c <= n,
                n == s.len(),
                bytes@ == s,
                trim_lo(s, i as int, c as int) == trim_lo(s, pa as int, c as int),
            decreases c - pa,
        {
            pa += 1;
        }
        let mut pb = c;
        while pb > pa && is_space_b(bytes[pb - 1])
            invariant
                pa <= pb <= c <= n,
                n == s.len(),
                bytes@ == s,
                trim_hi(s, pa as int, c as int) == trim_hi(s, pa as int, pb as int),
            decreases pb,
        {
            pb -= 1;
        }
        proof {
            assert(pa as int == trim_lo(s, i0, c as int));
            assert(pb as int == trim_hi(s, pa as int, c as int));
        }

        if pa >= pb {
            proof {
                assert(piece_val(s, i0, c as int) is None);
                assert(piece_vals(s, i as int, hi as int) is None);
                assert(piece_vals(s, lo as int, hi as int) is None);
                assert(spec_parse_coords(s) is None);
            }
            return Err(GameError::BadCoordinates);
        }

        let mut ok = true;
        let mut j = pa;
        while j < pb
            invariant
                pa <= j <= pb <= n,
                n == s.len(),
                bytes@ == s,
                ok <==> (forall|t: int| pa <= t < j ==> is_digit(#[trigger] s[t])),
            decreases pb - j,
        {
            let d = bytes[j];
            if d < 48 || d > 57 {
                proof {
                    assert(!is_digit(s[j as int]));
                }
                ok = false;
            }
            j += 1;
        }
        if !ok {
            proof {
                assert(!all_digits(s, pa as int, pb as int));
                assert(piece_val(s, i0, c as int) is None);
                assert(piece_vals(s, i as int, hi as int) is None);
                assert(piece_vals(s, lo as int, hi as int) is None);
                assert(spec_parse_coords(s) is None);
            }
            return Err(GameError::BadCoordinates);
        }

        let mut v: usize = 0;
        let mut j2 = pa;
        while j2 < pb
            invariant
                pa <= j2 <= pb <= n,
                n == s.len(),
                bytes@ == s,
                forall|t: int| pa <= t < pb ==> is_digit(#[trigger] s[t]),
                digits_val(s, pa as int, j2 as int) >= 0,
                v as int == clamped(digits_val(s, pa as int, j2 as int)),
            decreases pb - j2,
        {
            let d = bytes[j2];
            v = if v >= 3 {
                3
            } else {
                let t = 10 * v + ((d - 48) as usize);
                if t >= 3 {
                    3
                } else {
                    t
                }
            };
            j2 += 1;
        }
        let ghost pv = digits_val(s, pa as int, pb as int);
        proof {
            assert(all_digits(s, pa as int, pb as int));
            assert(piece_val(s, i0, c as int) == Some(pv));
        }

        if !got_first {
            a = v;
            got_first = true;
        } else {
            b = v;
            got_second = true;
        }
        let ghost vs_old = vs;
        proof {
            vs = vs.push(pv);
            assert(vs_old + seq![pv] =~= vs);
        }

        if c >= hi {
            more = false;
            proof {
                assert(piece_vals(s, i0, hi as int) == Some(seq![pv]));
            }
        } else {
            i = c + 1;
            proof {
                let pvr = piece_vals(s, i as int, hi as int);
                if pvr is Some {
                    let rest = pvr->0;
                    assert(piece_vals(s, i0, hi as int) == Some(seq![pv] + rest));
                    assert(vs_old + (seq![pv] + rest) =~= vs + rest);
                } else {
                    assert(piece_vals(s, i0, hi as int) is None);
                }
            }
        }
    }

    if !got_second {
        return Err(GameError::BadCoordinates);
    }
    if a > 2 || b > 2 {
        return Err(GameError::BadCoordinates);
    }
    Ok((b, a))
}

} // verus!
