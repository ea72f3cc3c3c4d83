//! Two-line display of an invalid token: the token itself, and a marker line
//! with a caret under each invalid position.

use vstd::prelude::*;
use vstd::string::*;

verus! {

/// The marker line: a caret at each listed position below the length, a
/// space everywhere else.
pub open spec fn marker_line(len: nat, positions: Seq<usize>) -> Seq<char> {
    Seq::new(
        len,
        |i: int|
            if exists|k: int| 0 <= k < positions.len() && positions[k] == i {
                '^'
            } else {
                ' '
            },
    )
}

/// Whether an index is among the listed positions.
fn position_marked(positions: &[usize], i: usize) -> (r: bool)
    ensures
        r == exists|k: int| 0 <= k < positions@.len() && positions@[k] == i,
{
    let n = positions.len();
    let mut k: usize = 0;
    while k < n
        invariant
            0 <= k <= n,
            n == positions@.len(),
            forall|m: int| 0 <= m < k ==> positions@[m] != i,
        decreases n - k,
    {
        if positions[k] == i {
            return true;
        }
        k = k + 1;
    }
    false
}

/// The token and, below it, a caret under each invalid position; positions
/// beyond the token's length are ignored.
pub fn create_error_display(input: &str, positions: &[usize]) -> (r: String)
    ensures
        r@ == input@ + seq!['\n'] + marker_line(input@.len(), positions@),
{
    let n = input.unicode_len();
    let ghost target = marker_line(n as nat, positions@);
    let mut marker = String::new();
    let mut i: usize = 0;
    while i < n
        invariant
            0 <= i <= n,
            n == input@.len(),
            target == marker_line(n as nat, positions@),
            marker@ =~= target.take(i as int),
        decreases n - i,
    {
        if position_marked(positions, i) {
            marker.append("^");
            proof {
                reveal_strlit("^");
                assert(target[i as int] == '^');
            }
        } else {
            marker.append(" ");
            proof {
                reveal_strlit(" ");
                assert(target[i as int] == ' ');
            }
        }
        proof {
            assert(marker@ =~= target.take(i + 1 as int));
        }
        i = i + 1;
    }
    let mut out = input.to_owned();
    out.append("\n");
    out.append(marker.as_str());
    proof {
        reveal_strlit("\n");
        assert(target.take(n as int) =~= target);
        assert(out@ =~= input@ + seq!['\n'] + marker_line(input@.len(), positions@));
    }
    out
}

} // verus!
