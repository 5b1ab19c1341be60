//! Cutoffs derived from the cluster size at a rumor's birth.
//!
//! The protocol caps a rumor's age in state B at `max(1, ceil(ln n))` and its
//! rounds at `max(1, ceil(ln ln n))`, where `n` is the number of peers when the
//! rumor was born. Both are computed exactly over the integers: since `e^k` is
//! irrational, `ceil(ln n) == k` holds exactly when
//! `floor(e^(k-1)) < n <= floor(e^k)`, so a table of `floor(e^k)` values
//! decides the cutoff. Any `u64` count is below `floor(e^45)`, and below
//! `floor(e^(e^4))`, so the tables end there.

use vstd::prelude::*;

verus! {

/// `max(1, ceil(ln n))`: the age at which a rumor in state B moves to C.
/// Each threshold is `floor(e^k)`.
pub open spec fn b_age_cutoff(n: int) -> int {
    if n <= 2 {
        1
    } else if n <= 7 {
        2
    } else if n <= 20 {
        3
    } else if n <= 54 {
        4
    } else if n <= 148 {
        5
    } else if n <= 403 {
        6
    } else if n <= 1096 {
        7
    } else if n <= 2980 {
        8
    } else if n <= 8103 {
        9
    } else if n <= 22026 {
        10
    } else if n <= 59874 {
        11
    } else if n <= 162754 {
        12
    } else if n <= 442413 {
        13
    } else if n <= 1202604 {
        14
    } else if n <= 3269017 {
        15
    } else if n <= 8886110 {
        16
    } else if n <= 24154952 {
        17
    } else if n <= 65659969 {
        18
    } else if n <= 178482300 {
        19
    } else if n <= 485165195 {
        20
    } else if n <= 1318815734 {
        21
    } else if n <= 3584912846 {
        22
    } else if n <= 9744803446 {
        23
    } else if n <= 26489122129 {
        24
    } else if n <= 72004899337 {
        25
    } else if n <= 195729609428 {
        26
    } else if n <= 532048240601 {
        27
    } else if n <= 1446257064291 {
        28
    } else if n <= 3931334297144 {
        29
    } else if n <= 10686474581524 {
        30
    } else if n <= 29048849665247 {
        31
    } else if n <= 78962960182680 {
        32
    } else if n <= 214643579785916 {
        33
    } else if n <= 583461742527454 {
        34
    } else if n <= 1586013452313430 {
        35
    } else if n <= 4311231547115195 {
        36
    } else if n <= 11719142372802611 {
        37
    } else if n <= 31855931757113756 {
        38
    } else if n <= 86593400423993746 {
        39
    } else if n <= 235385266837019985 {
        40
    } else if n <= 639843493530054949 {
        41
    } else if n <= 1739274941520501047 {
        42
    } else if n <= 4727839468229346561 {
        43
    } else if n <= 12851600114359308275 {
        44
    } else {
        45
    }
}

/// `max(1, ceil(ln ln n))`: both the cap on rounds spent in state C and the
/// overall cap on rounds spent in states B and C together.
/// Each threshold is `floor(e^(e^k))`.
pub open spec fn rounds_cutoff(n: int) -> int {
    if n <= 15 {
        1
    } else if n <= 1618 {
        2
    } else if n <= 528491311 {
        3
    } else {
        4
    }
}

/// The age cap for state B, from the peer-set size at the rumor's birth.
pub fn max_b_age_for(n: usize) -> (r: u8)
    ensures
        r as int == b_age_cutoff(n as int),
        1 <= r <= 45,
{
    let m: u64 = n as u64;
    let r: u8 = if m <= 2 {
            1
        } else if m <= 7 {
            2
        } else if m <= 20 {
            3
        } else if m <= 54 {
            4
        } else if m <= 148 {
            5
        } else if m <= 403 {
            6
        } else if m <= 1096 {
            7
        } else if m <= 2980 {
            8
        } else if m <= 8103 {
            9
        } else if m <= 22026 {
            10
        } else if m <= 59874 {
            11
        } else if m <= 162754 {
            12
        } else if m <= 442413 {
            13
        } else if m <= 1202604 {
            14
        } else if m <= 3269017 {
            15
        } else if m <= 8886110 {
            16
        } else if m <= 24154952 {
            17
        } else if m <= 65659969 {
            18
        } else if m <= 178482300 {
            19
        } else if m <= 485165195 {
            20
        } else if m <= 1318815734 {
            21
        } else if m <= 3584912846 {
            22
        } else if m <= 9744803446 {
            23
        } else if m <= 26489122129 {
            24
        } else if m <= 72004899337 {
            25
        } else if m <= 195729609428 {
            26
        } else if m <= 532048240601 {
            27
        } else if m <= 1446257064291 {
            28
        } else if m <= 3931334297144 {
            29
        } else if m <= 10686474581524 {
            30
        } else if m <= 29048849665247 {
            31
        } else if m <= 78962960182680 {
            32
        } else if m <= 214643579785916 {
            33
        } else if m <= 583461742527454 {
            34
        } else if m <= 1586013452313430 {
            35
        } else if m <= 4311231547115195 {
            36
        } else if m <= 11719142372802611 {
            37
        } else if m <= 31855931757113756 {
            38
        } else if m <= 86593400423993746 {
            39
        } else if m <= 235385266837019985 {
            40
        } else if m <= 639843493530054949 {
            41
        } else if m <= 1739274941520501047 {
            42
        } else if m <= 4727839468229346561 {
            43
        } else if m <= 12851600114359308275 {
            44
        } else {
            45
        };
    r
}

/// The round caps (for state C, and for B and C together), from the peer-set
/// size at the rumor's birth.
pub fn max_rounds_for(n: usize) -> (r: u8)
    ensures
        r as int == rounds_cutoff(n as int),
        1 <= r <= 4,
{
    let m: u64 = n as u64;
    if m <= 15 {
        1
    } else if m <= 1618 {
        2
    } else if m <= 528491311 {
        3
    } else {
        4
    }
}

} // verus!
