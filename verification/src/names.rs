//! Tile file naming: recognizing a placement-log file name of the
//! shape `{name}_log_{x}_{y}.bin` — a nonempty run of letters, digits
//! and hyphens, then `_log_`, then two nonempty digit runs separated
//! by an underscore, then `.bin` — and deriving the companion keyframe
//! file name `{name}_frame_{x}_{y}.bin` from it.
//!
//! Names are handled as bytes; the accepted shapes are ASCII.

use vstd::prelude::*;
use vstd::slice::slice_index_get;

verus! {

/// An ASCII decimal digit.
pub open spec fn is_digit(b: u8) -> bool {
    48 <= b <= 57
}

/// A byte the leading name may hold: a letter, a digit or a hyphen —
/// never an underscore, so the first underscore of a log name starts
/// its `_log_` marker.
pub open spec fn is_name_byte(b: u8) -> bool {
    ||| is_digit(b)
    ||| 65 <= b <= 90
    ||| 97 <= b <= 122
    ||| b == 45
}

/// The bytes of `_log_`.
pub open spec fn lit_log() -> Seq<u8> {
    seq![95u8, 108u8, 111u8, 103u8, 95u8]
}

/// The bytes of `_frame_`.
pub open spec fn lit_frame() -> Seq<u8> {
    seq![95u8, 102u8, 114u8, 97u8, 109u8, 101u8, 95u8]
}

/// The bytes of `.bin`.
pub open spec fn lit_bin() -> Seq<u8> {
    seq![46u8, 98u8, 105u8, 110u8]
}

/// Whether a byte sequence reads `{digits}_{digits}.bin` with both
/// digit runs nonempty; `u` witnesses the underscore's position.
pub open spec fn coords_ok(t: Seq<u8>) -> bool {
    &&& t.len() >= 7
    &&& t.subrange(t.len() - 4, t.len() as int) == lit_bin()
    &&& exists|u: int|
        #![trigger t[u]]
        {
            &&& 1 <= u <= t.len() - 6
            &&& t[u] == 95
            &&& (forall|i: int| 0 <= i < u ==> is_digit(#[trigger] t[i]))
            &&& (forall|i: int| u < i < t.len() - 4 ==> is_digit(#[trigger] t[i]))
        }
}

/// Whether a byte sequence is a log file name split at `p`: a
/// nonempty name, `_log_` starting at `p`, and tile coordinates with
/// the `.bin` suffix after it.
pub open spec fn log_name_split_at(s: Seq<u8>, p: int) -> bool {
    &&& 1 <= p
    &&& p + 5 <= s.len()
    &&& (forall|i: int| 0 <= i < p ==> is_name_byte(#[trigger] s[i]))
    &&& s.subrange(p, p + 5) == lit_log()
    &&& coords_ok(s.skip(p + 5))
}

/// Whether a byte sequence is a placement-log file name.
pub open spec fn is_log_name(s: Seq<u8>) -> bool {
    exists|p: int| log_name_split_at(s, p)
}

/// The keyframe file name derived from a log name split at `p`:
/// `_log_` replaced by `_frame_`.
pub open spec fn frame_name_at(s: Seq<u8>, p: int) -> Seq<u8> {
    s.take(p) + lit_frame() + s.skip(p + 5)
}

/// Whether a byte is acceptable in the leading name.
fn name_byte(b: u8) -> (r: bool)
    ensures
        r == is_name_byte(b),
{
    (48 <= b && b <= 57) || (65 <= b && b <= 90) || (97 <= b && b <= 122) || b == 45
}

/// Whether a byte is an ASCII decimal digit.
fn digit_byte(b: u8) -> (r: bool)
    ensures
        r == is_digit(b),
{
    48 <= b && b <= 57
}

/// Derive the companion keyframe file name from a placement-log file
/// name, or report that the name does not have the log shape.
pub fn frame_name_for_log(name: &[u8]) -> (r: Option<Vec<u8>>)
    ensures
        r is Some <==> is_log_name(name@),
        r is Some ==> exists|p: int|
            #[trigger] log_name_split_at(name@, p) && r->0@ == frame_name_at(name@, p),
{
    let ghost s = name@;
    let n = name.len();

    // the leading name runs up to the first byte it may not hold
    let mut p: usize = 0;
    while p < n && name_byte(*slice_index_get(name, p))
        invariant
            0 <= p <= n,
            n == s.len(),
            s == name@,
            forall|i: int| 0 <= i < p ==> is_name_byte(#[trigger] s[i]),
        decreases n - p,
    {
        p = p + 1;
    }
    proof {
        // any valid split must sit exactly here: everything before it
        // is a name byte, and its underscore is not one
        assert forall|p2: int| log_name_split_at(s, p2) implies p2 == p as int by {
            assert(s.subrange(p2, p2 + 5)[0] == s[p2]);
            assert(!is_name_byte(s[p2]));
            if p2 < p as int {
                assert(is_name_byte(s[p2]));
            }
            if (p as int) < p2 {
                assert(is_name_byte(s[p as int]));
            }
        }
    }
    if p == 0 {
        return None;
    }
    if n - p < 5 {
        return None;
    }
    if *slice_index_get(name, p) != 95 || *slice_index_get(name, p + 1) != 108
        || *slice_index_get(name, p + 2) != 111 || *slice_index_get(name, p + 3) != 103
        || *slice_index_get(name, p + 4) != 95 {
        proof {
            if is_log_name(s) {
                let p2 = choose|p2: int| log_name_split_at(s, p2);
                assert(s.subrange(p2, p2 + 5) =~= lit_log());
                assert(s[p2] == 95 && s[p2 + 1] == 108 && s[p2 + 2] == 111 && s[p2 + 3] == 103
                    && s[p2 + 4] == 95);
            }
        }
        return None;
    }
    let ghost t = s.skip(p + 5);

    // first coordinate: a nonempty digit run
    let mut q: usize = p + 5;
    while q < n && digit_byte(*slice_index_get(name, q))
        invariant
            p + 5 <= q <= n,
            n == s.len(),
            s == name@,
            forall|i: int| p + 5 <= i < q ==> is_digit(#[trigger] s[i]),
        decreases n - q,
    {
        q = q + 1;
    }
    proof {
        // a valid split's separating underscore sits exactly at q
        assert forall|u: int|
            1 <= u <= t.len() - 6 && t[u] == 95 && (forall|i: int|
                0 <= i < u ==> is_digit(#[trigger] t[i])) && (forall|i: int|
                u < i < t.len() - 4 ==> is_digit(#[trigger] t[i])) implies u + p + 5
            == q as int by {
            let gu = u + p + 5;
            assert(t[u] == s[gu]);
            assert(!is_digit(s[gu]));
            if gu < q as int {
                assert(is_digit(s[gu]));
            }
            if (q as int) < gu {
                assert(is_digit(t[q - (p + 5) as int]));
                assert(q < n && !is_digit(s[q as int]));
            }
        }
    }
    if q == p + 5 {
        return None;
    }
    if q >= n || *slice_index_get(name, q) != 95 {
        return None;
    }

    // second coordinate: a nonempty digit run
    let mut q2: usize = q + 1;
    while q2 < n && digit_byte(*slice_index_get(name, q2))
        invariant
            q + 1 <= q2 <= n,
            n == s.len(),
            s == name@,
            forall|i: int| q + 1 <= i < q2 ==> is_digit(#[trigger] s[i]),
        decreases n - q2,
    {
        q2 = q2 + 1;
    }
    if q2 == q + 1 {
        proof {
            if is_log_name(s) {
                let u = choose|u: int|
                    #![trigger t[u]]
                    1 <= u <= t.len() - 6 && t[u] == 95 && (forall|i: int|
                        0 <= i < u ==> is_digit(#[trigger] t[i])) && (forall|i: int|
                        u < i < t.len() - 4 ==> is_digit(#[trigger] t[i]));
                assert(is_digit(t[u + 1]));
                assert(t[u + 1] == s[q + 1]);
            }
        }
        return None;
    }
    if n - q2 != 4 {
        proof {
            if is_log_name(s) {
                let u = choose|u: int|
                    #![trigger t[u]]
                    1 <= u <= t.len() - 6 && t[u] == 95 && (forall|i: int|
                        0 <= i < u ==> is_digit(#[trigger] t[i])) && (forall|i: int|
                        u < i < t.len() - 4 ==> is_digit(#[trigger] t[i]));
                assert(t.subrange(t.len() - 4, t.len() as int) =~= lit_bin());
                if (q2 as int) < n - 4 {
                    assert(is_digit(t[q2 - (p + 5) as int]));
                    assert(t[q2 - (p + 5) as int] == s[q2 as int]);
                    assert(q2 < n && !is_digit(s[q2 as int]));
                } else {
                    assert(t[n - 4 - (p + 5) as int] == s[n - 4]);
                    assert(s[n - 4] == 46);
                    assert(is_digit(t[n - 4 - (p + 5) as int]));
                }
            }
        }
        return None;
    }
    if *slice_index_get(name, q2) != 46 || *slice_index_get(name, q2 + 1) != 98
        || *slice_index_get(name, q2 + 2) != 105 || *slice_index_get(name, q2 + 3) != 110 {
        proof {
            if is_log_name(s) {
                assert(t.subrange(t.len() - 4, t.len() as int) =~= lit_bin());
                assert(s[n - 4] == 46 && s[n - 3] == 98 && s[n - 2] == 105 && s[n - 1] == 110);
            }
        }
        return None;
    }

    // the name has the log shape; build the companion frame name
    proof {
        assert(log_name_split_at(s, p as int)) by {
            assert(s.subrange(p as int, p + 5) =~= lit_log());
            assert(coords_ok(t)) by {
                let u = q - (p + 5) as int;
                assert(t.subrange(t.len() - 4, t.len() as int) =~= lit_bin());
                assert(t[u] == s[q as int]);
                assert forall|i: int| 0 <= i < u implies is_digit(#[trigger] t[i]) by {
                    assert(t[i] == s[p + 5 + i]);
                }
                assert forall|i: int| u < i < t.len() - 4 implies is_digit(#[trigger] t[i]) by {
                    assert(t[i] == s[p + 5 + i]);
                }
            }
        }
    }
    let mut out: Vec<u8> = Vec::new();
    let mut i: usize = 0;
    while i < p
        invariant
            0 <= i <= p,
            p <= n,
            n == s.len(),
            s == name@,
            out@ =~= s.take(i as int),
        decreases p - i,
    {
        out.push(*slice_index_get(name, i));
        i = i + 1;
    }
    out.push(95);
    out.push(102);
    out.push(114);
    out.push(97);
    out.push(109);
    out.push(101);
    out.push(95);
    let mut j: usize = p + 5;
    while j < n
        invariant
            p + 5 <= j <= n,
            n == s.len(),
            s == name@,
            out@ =~= s.take(p as int) + lit_frame() + s.subrange(p + 5, j as int),
        decreases n - j,
    {
        out.push(*slice_index_get(name, j));
        proof {
            assert(out@ =~= s.take(p as int) + lit_frame() + s.subrange(p + 5, j + 1));
        }
        j = j + 1;
    }
    proof {
        assert(out@ =~= frame_name_at(s, p as int));
    }
    Some(out)
}

} // verus!
