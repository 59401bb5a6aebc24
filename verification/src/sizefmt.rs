use vstd::prelude::*;

verus! {

/// Human-readable byte counts: binary unit steps, one decimal place below
/// ten of a unit, none at or above, padded to a fixed five-column width.
pub open spec fn digit_char(d: int) -> char {
    if d == 0 {
        '0'
    } else if d == 1 {
        '1'
    } else if d == 2 {
        '2'
    } else if d == 3 {
        '3'
    } else if d == 4 {
        '4'
    } else if d == 5 {
        '5'
    } else if d == 6 {
        '6'
    } else if d == 7 {
        '7'
    } else if d == 8 {
        '8'
    } else {
        '9'
    }
}

pub open spec fn dec_str(n: nat) -> Seq<char>
    decreases n,
{
    if n < 10 {
        seq![digit_char(n as int)]
    } else {
        dec_str(n / 10).push(digit_char((n % 10) as int))
    }
}

/// The number scaled to a unit: one decimal digit below ten units, whole
/// units above, both rounded down.
pub open spec fn scaled_str(b: int, base: int) -> Seq<char> {
    let tenths = b * 10 / base;
    if tenths < 100 {
        dec_str((tenths / 10) as nat) + seq!['.'] + dec_str((tenths % 10) as nat)
    } else {
        dec_str((b / base) as nat)
    }
}

pub open spec fn fmt_size(b: u64) -> Seq<char> {
    if b < 1024 {
        dec_str(b as nat).push('B')
    } else if b < 1048576 {
        scaled_str(b as int, 1024).push('K')
    } else if b < 1073741824 {
        scaled_str(b as int, 1048576).push('M')
    } else if b < 1099511627776 {
        scaled_str(b as int, 1073741824).push('G')
    } else if b < 1125899906842624 {
        scaled_str(b as int, 1099511627776).push('T')
    } else if b < 1152921504606846976 {
        scaled_str(b as int, 1125899906842624).push('P')
    } else {
        scaled_str(b as int, 1152921504606846976).push('E')
    }
}

pub open spec fn spaces(k: int) -> Seq<char>
    decreases k,
{
    if k <= 0 {
        Seq::empty()
    } else {
        spaces(k - 1).push(' ')
    }
}

/// The fixed-width size column.
pub open spec fn size_cell(b: u64) -> Seq<char> {
    spaces(5 - fmt_size(b).len()) + fmt_size(b)
}

fn digit_str(d: u64) -> (r: &'static str)
    requires
        d < 10,
    ensures
        r@ == seq![digit_char(d as int)],
{
    match d {
        0 => {
            proof {
                reveal_strlit("0");
                assert("0"@ =~= seq!['0']);
            }
            "0"
        },
        1 => {
            proof {
                reveal_strlit("1");
                assert("1"@ =~= seq!['1']);
            }
            "1"
        },
        2 => {
            proof {
                reveal_strlit("2");
                assert("2"@ =~= seq!['2']);
            }
            "2"
        },
        3 => {
            proof {
                reveal_strlit("3");
                assert("3"@ =~= seq!['3']);
            }
            "3"
        },
        4 => {
            proof {
                reveal_strlit("4");
                assert("4"@ =~= seq!['4']);
            }
            "4"
        },
        5 => {
            proof {
                reveal_strlit("5");
                assert("5"@ =~= seq!['5']);
            }
            "5"
        },
        6 => {
            proof {
                reveal_strlit("6");
                assert("6"@ =~= seq!['6']);
            }
            "6"
        },
        7 => {
            proof {
                reveal_strlit("7");
                assert("7"@ =~= seq!['7']);
            }
            "7"
        },
        8 => {
            proof {
                reveal_strlit("8");
                assert("8"@ =~= seq!['8']);
            }
            "8"
        },
        _ => {
            proof {
                reveal_strlit("9");
                assert("9"@ =~= seq!['9']);
            }
            "9"
        },
    }
}

fn push_dec(n: u64, out: &mut String)
    ensures
        final(out)@ == old(out)@ + dec_str(n as nat),
    decreases n,
{
    if n < 10 {
        let d = digit_str(n);
        out.append(d);
        proof {
            assert(final(out)@ =~= old(out)@ + dec_str(n as nat));
        }
    } else {
        push_dec(n / 10, out);
        let d = digit_str(n % 10);
        out.append(d);
        proof {
            assert(final(out)@ =~= old(out)@ + dec_str(n as nat));
        }
    }
}

fn push_scaled(b: u64, base: u64, out: &mut String)
    requires
        base >= 1024,
        b < base * 1024,
        b >= base,
    ensures
        final(out)@ == old(out)@ + scaled_str(b as int, base as int),
{
    let tenths128: u128 = (b as u128) * 10 / (base as u128);
    proof {
        assert(tenths128 == b * 10 / (base as int));
        assert(tenths128 < 10240) by (nonlinear_arith)
            requires
                b < base * 1024,
                base >= 1024,
                tenths128 == b * 10 / (base as int),
        {}
    }
    let tenths: u64 = tenths128 as u64;
    if tenths < 100 {
        push_dec(tenths / 10, out);
        proof {
            reveal_strlit(".");
            assert("."@ =~= seq!['.']);
        }
        out.append(".");
        push_dec(tenths % 10, out);
        proof {
            assert(final(out)@ =~= old(out)@ + scaled_str(b as int, base as int));
        }
    } else {
        push_dec(b / base, out);
        proof {
            assert(final(out)@ =~= old(out)@ + scaled_str(b as int, base as int));
        }
    }
}

/// The size column for one node: the human-readable count, padded on the
/// left to five columns.
pub fn format_size(bytes: u64) -> (r: String)
    ensures
        r@ == size_cell(bytes),
{
    let mut body = String::new();
    let letter: &str;
    if bytes < 1024 {
        push_dec(bytes, &mut body);
        proof {
            reveal_strlit("B");
            assert("B"@ =~= seq!['B']);
        }
        letter = "B";
    } else if bytes < 1048576 {
        push_scaled(bytes, 1024, &mut body);
        proof {
            reveal_strlit("K");
            assert("K"@ =~= seq!['K']);
        }
        letter = "K";
    } else if bytes < 1073741824 {
        push_scaled(bytes, 1048576, &mut body);
        proof {
            reveal_strlit("M");
            assert("M"@ =~= seq!['M']);
        }
        letter = "M";
    } else if bytes < 1099511627776 {
        push_scaled(bytes, 1073741824, &mut body);
        proof {
            reveal_strlit("G");
            assert("G"@ =~= seq!['G']);
        }
        letter = "G";
    } else if bytes < 1125899906842624 {
        push_scaled(bytes, 1099511627776, &mut body);
        proof {
            reveal_strlit("T");
            assert("T"@ =~= seq!['T']);
        }
        letter = "T";
    } else if bytes < 1152921504606846976 {
        push_scaled(bytes, 1125899906842624, &mut body);
        proof {
            reveal_strlit("P");
            assert("P"@ =~= seq!['P']);
        }
        letter = "P";
    } else {
        push_scaled(bytes, 1152921504606846976, &mut body);
        proof {
            reveal_strlit("E");
            assert("E"@ =~= seq!['E']);
        }
        letter = "E";
    }
    body.append(letter);
    proof {
        assert(body@ =~= fmt_size(bytes));
    }
    let blen = body.as_str().unicode_len();
    let mut out = String::new();
    let pad: usize = if blen >= 5 {
        0
    } else {
        5 - blen
    };
    let mut j: usize = 0;
    proof {
        reveal_strlit(" ");
        assert(" "@ =~= seq![' ']);
        assert(out@ =~= spaces(0));
    }
    while j < pad
        invariant
            0 <= j <= pad,
            out@ == spaces(j as int),
            " "@ == seq![' '],
        decreases pad - j,
    {
        out.append(" ");
        proof {
            assert(out@ =~= spaces(j + 1));
        }
        j += 1;
    }
    proof {
        assert(pad == if fmt_size(bytes).len() >= 5 {
            0int
        } else {
            5 - fmt_size(bytes).len()
        });
        if fmt_size(bytes).len() >= 5 {
            assert(spaces(5 - fmt_size(bytes).len()) =~= Seq::<char>::empty());
        }
    }
    out.append(body.as_str());
    proof {
        assert(out@ =~= size_cell(bytes));
    }
    out
}


proof fn lemma_dec_len(n: nat)
    requires
        n < 10000,
    ensures
        dec_str(n).len() == (if n < 10 {
            1int
        } else if n < 100 {
            2int
        } else if n < 1000 {
            3int
        } else {
            4int
        }),
    decreases n,
{
    if n >= 10 {
        lemma_dec_len(n / 10);
    }
}

proof fn lemma_spaces_len(k: int)
    ensures
        spaces(k).len() == (if k <= 0 {
            0int
        } else {
            k
        }),
    decreases k,
{
    if k > 0 {
        lemma_spaces_len(k - 1);
    }
}

proof fn lemma_scaled_len(b: int, base: int)
    requires
        base >= 1024,
        base <= b < base * 1024,
    ensures
        1 <= scaled_str(b, base).len() <= 4,
{
    let tenths = b * 10 / base;
    assert(0 <= tenths < 10240) by (nonlinear_arith)
        requires
            base >= 1024,
            base <= b < base * 1024,
            tenths == b * 10 / base,
    {}
    if tenths < 100 {
        lemma_dec_len((tenths / 10) as nat);
        lemma_dec_len((tenths % 10) as nat);
    } else {
        assert(0 <= b / base < 1024) by (nonlinear_arith)
            requires
                base >= 1024,
                base <= b < base * 1024,
        {}
        lemma_dec_len((b / base) as nat);
    }
}

/// The size column is always exactly five characters wide.
pub proof fn lemma_size_cell_len(b: u64)
    ensures
        1 <= fmt_size(b).len() <= 5,
        size_cell(b).len() == 5,
{
    if b < 1024 {
        lemma_dec_len(b as nat);
    } else if b < 1048576 {
        lemma_scaled_len(b as int, 1024);
    } else if b < 1073741824 {
        lemma_scaled_len(b as int, 1048576);
    } else if b < 1099511627776 {
        lemma_scaled_len(b as int, 1073741824);
    } else if b < 1125899906842624 {
        lemma_scaled_len(b as int, 1099511627776);
    } else if b < 1152921504606846976 {
        lemma_scaled_len(b as int, 1125899906842624);
    } else {
        lemma_scaled_len(b as int, 1152921504606846976);
    }
    lemma_spaces_len(5 - fmt_size(b).len());
}

} // verus!
