//! Port discovery from a launcher's log line.
//!
//! The component that starts the external process reads that process's
//! startup log and hands each line here; the first place where the word
//! `port ` is followed at once by digits names the listening port.  The
//! digits are taken greedily, and a run beyond the port range yields
//! nothing.
use vstd::prelude::*;

use crate::codec::digit_run;
use crate::codec::digits_val;
use crate::codec::is_digit;
use crate::codec::parse_run_value;
use crate::codec::scan_digits;

verus! {

broadcast use vstd::std_specs::vec::group_vec_axioms;

/// The pattern looked for: the word `port` and one space.
pub open spec fn port_pat() -> Seq<u8> {
    seq![112u8, 111u8, 114u8, 116u8, 32u8]
}

/// Whether the pattern, followed at once by a digit, stands at `i`.
pub open spec fn match_at(s: Seq<u8>, i: int) -> bool {
    0 <= i && i + 5 < s.len() && s.subrange(i, i + 5) == port_pat() && is_digit(s[i + 5])
}

/// Whether the line holds the pattern anywhere.
pub open spec fn has_match(s: Seq<u8>) -> bool {
    exists|i: int| match_at(s, i)
}

/// Whether `i` is the first place the pattern stands at.
pub open spec fn first_match(s: Seq<u8>, i: int) -> bool {
    match_at(s, i) && forall|j: int| 0 <= j < i ==> !match_at(s, j)
}

/// The numeric value of the digit run right after the match at `i`.
pub open spec fn port_val_at(s: Seq<u8>, i: int) -> nat {
    digits_val(s.subrange(i + 5, i + 5 + digit_run(s.skip(i + 5))))
}

/// Finds the first `port <digits>` in a log line and reads the digits as a
/// port number.  Yields nothing when the pattern stands nowhere in the
/// line, and nothing when the digit run at the first match exceeds the port
/// range.
#[verifier::loop_isolation(false)]
pub fn parse_port_from_output(line: &[u8]) -> (r: Option<u16>)
    ensures
        !has_match(line@) ==> r is None,
        r is Some ==> has_match(line@),
        forall|i: int|
            first_match(line@, i) ==> (match r {
                Some(v) => port_val_at(line@, i) == v as nat,
                None => !has_match(line@) || port_val_at(line@, i) > 65535,
            }),
{
    let n = line.len();
    let mut i: usize = 0;
    while i < n && n - i > 5
        invariant
            i <= n,
            forall|j: int| 0 <= j < i ==> !match_at(line@, j),
        decreases n - i,
    {
        let hit = line[i] == 112 && line[i + 1] == 111 && line[i + 2] == 114 && line[i + 3]
            == 116 && line[i + 4] == 32 && line[i + 5] >= 48 && line[i + 5] <= 57;
        if hit {
            proof {
                assert(line@.subrange(i as int, i as int + 5) =~= port_pat());
                assert(match_at(line@, i as int));
                assert(first_match(line@, i as int));
                assert forall|x: int| first_match(line@, x) implies x == i as int by {
                    if x < i {
                        assert(!match_at(line@, x));
                    }
                    if x > i {
                        assert(match_at(line@, i as int));
                    }
                }
            }
            let k = scan_digits(line, i + 5);
            match parse_run_value(line, i + 5, k) {
                None => {
                    proof {
                        assert(port_val_at(line@, i as int) > 65535);
                    }
                    return None;
                },
                Some(v) => {
                    if v > 65535 {
                        return None;
                    }
                    return Some(v as u16);
                },
            }
        }
        proof {
            if match_at(line@, i as int) {
                assert(line@.subrange(i as int, i as int + 5)[0] == line@[i as int]);
                assert(line@.subrange(i as int, i as int + 5)[1] == line@[i as int + 1]);
                assert(line@.subrange(i as int, i as int + 5)[2] == line@[i as int + 2]);
                assert(line@.subrange(i as int, i as int + 5)[3] == line@[i as int + 3]);
                assert(line@.subrange(i as int, i as int + 5)[4] == line@[i as int + 4]);
                assert(false);
            }
        }
        i = i + 1;
    }
    proof {
        assert forall|j: int| !match_at(line@, j) by {
            if 0 <= j < i {
            } else if j >= i {
                assert(j + 5 >= n);
            }
        }
        assert(!has_match(line@));
    }
    None
}

} // verus!
