use vstd::prelude::*;

verus! {

/// The decimal digit character for a value below ten.
pub open spec fn digit_char_of(d: int) -> char {
    if d == 0 {
        '0'
    } else if d == 1 {
        '1'
    } else if d == 2 {
        '2'
    } else if d == 3 {
        '3'
    } else if d == 4 {
        '4'
    } else if d == 5 {
        '5'
    } else if d == 6 {
        '6'
    } else if d == 7 {
        '7'
    } else if d == 8 {
        '8'
    } else {
        '9'
    }
}

/// The decimal digits of a non-negative number, most significant first.
pub open spec fn dec_digits(n: int) -> Seq<char>
    decreases n,
{
    if n < 10 {
        seq![digit_char_of(n)]
    } else {
        dec_digits(n / 10).push(digit_char_of(n % 10))
    }
}

/// A minute count, zero-padded to two digits.
pub open spec fn pad2(m: int) -> Seq<char> {
    if 0 <= m < 10 {
        seq!['0'] + dec_digits(m)
    } else {
        dec_digits(m)
    }
}

/// The compact rendering of a span of that many seconds: an `"<hours>h "`
/// prefix when there are whole hours; then `"<minutes>m"` (two digits) when
/// the minute component is non-zero, else `"<seconds>s"`. The minutes-vs-
/// seconds branch is mutually exclusive, not hierarchical: a span of whole
/// hours exactly reads `"2h 0s"`, not `"2h 00m"`.
pub open spec fn spec_format_duration(total: int) -> Seq<char> {
    let hours = total / 3600;
    let minutes = (total / 60) % 60;
    let seconds = total % 60;
    let prefix = if hours > 0 {
        dec_digits(hours) + seq!['h', ' ']
    } else {
        Seq::<char>::empty()
    };
    prefix + if minutes > 0 {
        pad2(minutes) + seq!['m']
    } else {
        dec_digits(seconds) + seq!['s']
    }
}

fn digit_to_str(d: u64) -> (r: &'static str)
    requires
        d <= 9,
    ensures
        r@ == seq![digit_char_of(d as int)],
{
    match d {
        0 => {
            proof {
                reveal_strlit("0");
                assert("0"@ =~= seq![digit_char_of(0int)]);
            }
            "0"
        },
        1 => {
            proof {
                reveal_strlit("1");
                assert("1"@ =~= seq![digit_char_of(1int)]);
            }
            "1"
        },
        2 => {
            proof {
                reveal_strlit("2");
                assert("2"@ =~= seq![digit_char_of(2int)]);
            }
            "2"
        },
        3 => {
            proof {
                reveal_strlit("3");
                assert("3"@ =~= seq![digit_char_of(3int)]);
            }
            "3"
        },
        4 => {
            proof {
                reveal_strlit("4");
                assert("4"@ =~= seq![digit_char_of(4int)]);
            }
            "4"
        },
        5 => {
            proof {
                reveal_strlit("5");
                assert("5"@ =~= seq![digit_char_of(5int)]);
            }
            "5"
        },
        6 => {
            proof {
                reveal_strlit("6");
                assert("6"@ =~= seq![digit_char_of(6int)]);
            }
            "6"
        },
        7 => {
            proof {
                reveal_strlit("7");
                assert("7"@ =~= seq![digit_char_of(7int)]);
            }
            "7"
        },
        8 => {
            proof {
                reveal_strlit("8");
                assert("8"@ =~= seq![digit_char_of(8int)]);
            }
            "8"
        },
        _ => {
            proof {
                reveal_strlit("9");
                assert("9"@ =~= seq![digit_char_of(9int)]);
            }
            "9"
        },
    }
}

/// Render a number in decimal.
pub fn u64_to_string(n: u64) -> (r: String)
    ensures
        r@ == dec_digits(n as int),
    decreases n,
{
    if n < 10 {
        String::from_str(digit_to_str(n))
    } else {
        let mut s = u64_to_string(n / 10);
        s.append(digit_to_str(n % 10));
        proof {
            assert(s@ =~= dec_digits((n / 10) as int).push(digit_char_of((n % 10) as int)));
        }
        s
    }
}

/// Render an elapsed span of seconds as a compact human string, as
/// `spec_format_duration` lays it out. Negative spans cannot be given:
/// callers hand in a whole number of seconds.
pub fn format_duration(total_seconds: u64) -> (r: String)
    ensures
        r@ == spec_format_duration(total_seconds as int),
{
    let hours = total_seconds / 3600;
    let minutes = (total_seconds / 60) % 60;
    let seconds = total_seconds % 60;
    let mut out = String::new();
    if hours > 0 {
        let h = u64_to_string(hours);
        out.append(h.as_str());
        proof {
            reveal_strlit("h ");
            assert("h "@ =~= seq!['h', ' ']);
        }
        out.append("h ");
    }
    if minutes > 0 {
        if minutes < 10 {
            proof {
                reveal_strlit("0");
                assert("0"@ =~= seq!['0']);
            }
            out.append("0");
        }
        let m = u64_to_string(minutes);
        out.append(m.as_str());
        proof {
            reveal_strlit("m");
            assert("m"@ =~= seq!['m']);
        }
        out.append("m");
    } else {
        let s = u64_to_string(seconds);
        out.append(s.as_str());
        proof {
            reveal_strlit("s");
            assert("s"@ =~= seq!['s']);
        }
        out.append("s");
    }
    proof {
        assert(out@ =~= spec_format_duration(total_seconds as int));
    }
    out
}

} // verus!
