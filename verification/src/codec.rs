//! The flat-file persistence codec.
//!
//! The persisted form is a character-level encoding: every integer is a
//! fixed run of 16 hexadecimal digits, least significant digit first, and
//! every string is its length followed by its characters verbatim, so no
//! escaping is ever needed. A record is its scope count, its scope
//! strings, and the four fields of the credential payload; the file is a
//! record count followed by the records. The parser accepts exactly the
//! canonical encodings the writer produces.
use vstd::prelude::*;
use crate::index::TokenInfo;
use crate::index::opt_str_view;
use crate::fingerprint::scope_views;

verus! {

/// 16 raised to `k`.
pub open spec fn pow16(k: nat) -> nat
    decreases k,
{
    if k == 0 {
        1
    } else {
        16 * pow16((k - 1) as nat)
    }
}

pub proof fn lemma_pow16_values()
    ensures
        pow16(15) == 0x1000_0000_0000_0000,
        pow16(16) == 0x1_0000_0000_0000_0000,
{
    reveal_with_fuel(pow16, 17);
}

/// The hexadecimal digit character for a value below sixteen.
pub open spec fn hex_char_of(d: nat) -> char {
    if d == 0 {
        '0'
    } else if d == 1 {
        '1'
    } else if d == 2 {
        '2'
    } else if d == 3 {
        '3'
    } else if d == 4 {
        '4'
    } else if d == 5 {
        '5'
    } else if d == 6 {
        '6'
    } else if d == 7 {
        '7'
    } else if d == 8 {
        '8'
    } else if d == 9 {
        '9'
    } else if d == 10 {
        'a'
    } else if d == 11 {
        'b'
    } else if d == 12 {
        'c'
    } else if d == 13 {
        'd'
    } else if d == 14 {
        'e'
    } else {
        'f'
    }
}

proof fn lemma_hex_char_injective(x: nat, y: nat)
    requires
        x < 16,
        y < 16,
        hex_char_of(x) == hex_char_of(y),
    ensures
        x == y,
{
}

/// `k` hexadecimal digits of `v`, least significant first.
pub open spec fn hex_seq(v: nat, k: nat) -> Seq<char>
    decreases k,
{
    if k == 0 {
        Seq::empty()
    } else {
        seq![hex_char_of(v % 16)] + hex_seq(v / 16, (k - 1) as nat)
    }
}

/// The fixed-width encoding of a 64-bit integer.
pub open spec fn ser_u64(v: nat) -> Seq<char> {
    hex_seq(v, 16)
}

fn hex_digit_str(d: u64) -> (r: &'static str)
    requires
        d < 16,
    ensures
        r@.len() == 1,
        r@[0] == hex_char_of(d as nat),
{
    proof {
        reveal_strlit("0");
        reveal_strlit("1");
        reveal_strlit("2");
        reveal_strlit("3");
        reveal_strlit("4");
        reveal_strlit("5");
        reveal_strlit("6");
        reveal_strlit("7");
        reveal_strlit("8");
        reveal_strlit("9");
        reveal_strlit("a");
        reveal_strlit("b");
        reveal_strlit("c");
        reveal_strlit("d");
        reveal_strlit("e");
        reveal_strlit("f");
    }
    if d == 0 {
        "0"
    } else if d == 1 {
        "1"
    } else if d == 2 {
        "2"
    } else if d == 3 {
        "3"
    } else if d == 4 {
        "4"
    } else if d == 5 {
        "5"
    } else if d == 6 {
        "6"
    } else if d == 7 {
        "7"
    } else if d == 8 {
        "8"
    } else if d == 9 {
        "9"
    } else if d == 10 {
        "a"
    } else if d == 11 {
        "b"
    } else if d == 12 {
        "c"
    } else if d == 13 {
        "d"
    } else if d == 14 {
        "e"
    } else {
        "f"
    }
}

fn emit_hex(out: &mut String, v: u64, k: usize)
    requires
        k <= 16,
    ensures
        final(out)@ == old(out)@ + hex_seq(v as nat, k as nat),
    decreases k,
{
    if k == 0 {
        proof {
            assert(out@ =~= old(out)@ + hex_seq(v as nat, 0));
        }
    } else {
        let d = v % 16;
        out.append(hex_digit_str(d));
        emit_hex(out, v / 16, k - 1);
        proof {
            assert(out@ =~= old(out)@ + hex_seq(v as nat, k as nat));
        }
    }
}

/// Append the 16-digit encoding of `v`.
pub fn emit_u64(out: &mut String, v: u64)
    ensures
        final(out)@ == old(out)@ + ser_u64(v as nat),
{
    emit_hex(out, v, 16);
}

fn hex_val(c: char) -> (r: Option<u64>)
    ensures
        r matches Some(d) ==> d < 16 && hex_char_of(d as nat) == c,
        r is None ==> forall|d: nat| d < 16 ==> hex_char_of(d) != c,
{
    if c == '0' {
        Some(0)
    } else if c == '1' {
        Some(1)
    } else if c == '2' {
        Some(2)
    } else if c == '3' {
        Some(3)
    } else if c == '4' {
        Some(4)
    } else if c == '5' {
        Some(5)
    } else if c == '6' {
        Some(6)
    } else if c == '7' {
        Some(7)
    } else if c == '8' {
        Some(8)
    } else if c == '9' {
        Some(9)
    } else if c == 'a' {
        Some(10)
    } else if c == 'b' {
        Some(11)
    } else if c == 'c' {
        Some(12)
    } else if c == 'd' {
        Some(13)
    } else if c == 'e' {
        Some(14)
    } else if c == 'f' {
        Some(15)
    } else {
        None
    }
}

proof fn lemma_pow16_mono(a: nat, b: nat)
    requires
        a <= b,
    ensures
        pow16(a) <= pow16(b),
    decreases b,
{
    if a < b && b > 0 {
        lemma_pow16_mono(a, (b - 1) as nat);
        assert(pow16(b) == 16 * pow16((b - 1) as nat));
    }
}

proof fn lemma_hex_seq_len(v: nat, k: nat)
    ensures
        hex_seq(v, k).len() == k,
    decreases k,
{
    if k > 0 {
        lemma_hex_seq_len(v / 16, (k - 1) as nat);
    }
}

/// If the characters at `pos .. pos + k` encode `v`, the characters at
/// `pos + 1 .. pos + k` encode the remaining digits of `v`.
proof fn lemma_tail_subrange(s: Seq<char>, pos: int, k: int, v: nat)
    requires
        0 <= pos,
        1 <= k,
        pos + k <= s.len(),
        s.subrange(pos, pos + k) == hex_seq(v, k as nat),
    ensures
        s.subrange(pos + 1, pos + k) == hex_seq(v / 16, (k - 1) as nat),
        s.subrange(pos, pos + k)[0] == hex_char_of(v % 16),
{
    let whole = s.subrange(pos, pos + k);
    let tail = s.subrange(pos + 1, pos + k);
    let rest = hex_seq(v / 16, (k - 1) as nat);
    lemma_hex_seq_len(v / 16, (k - 1) as nat);
    assert forall|j: int| 0 <= j < k - 1 implies tail[j] == rest[j] by {
        assert(tail[j] == s[pos + 1 + j]);
        assert(whole[j + 1] == s[pos + 1 + j]);
        assert((seq![hex_char_of(v % 16)] + rest)[j + 1] == rest[j]);
    }
    assert(tail =~= rest);
}

/// Parse `k` hexadecimal digits at `pos`, least significant first.
/// Succeeds exactly on the canonical encoding, returning the encoded
/// value and the position just past it.
fn parse_hex(s: &str, pos: usize, k: usize) -> (r: Option<(u64, usize)>)
    requires
        pos <= s@.len(),
        k <= 16,
    ensures
        r matches Some(p) ==> ({
            &&& pos + k <= s@.len()
            &&& p.1 == pos + k
            &&& (p.0 as nat) < pow16(k as nat)
            &&& s@.subrange(pos as int, (pos + k) as int) == hex_seq(p.0 as nat, k as nat)
        }),
        forall|v: nat|
            v < pow16(k as nat) && pos + k <= s@.len() && s@.subrange(
                pos as int,
                (pos + k) as int,
            ) == hex_seq(v, k as nat) ==> (r matches Some(p) && p.0 == v && p.1 == pos + k),
    decreases k,
{
    if k == 0 {
        proof {
            assert(s@.subrange(pos as int, pos as int) =~= hex_seq(0, 0));
        }
        return Some((0u64, pos));
    }
    if s.unicode_len() <= pos {
        return None;
    }
    let c = s.get_char(pos);
    match hex_val(c) {
        None => {
            proof {
                assert forall|v: nat|
                    v < pow16(k as nat) && pos + k <= s@.len() && s@.subrange(
                        pos as int,
                        (pos + k) as int,
                    ) == hex_seq(v, k as nat) implies false by {
                    assert(s@.subrange(pos as int, (pos + k) as int)[0] == c);
                    assert(hex_seq(v, k as nat)[0] == hex_char_of(v % 16));
                    assert(v % 16 < 16);
                };
            }
            None
        },
        Some(d) => {
            match parse_hex(s, pos + 1, k - 1) {
                None => {
                    proof {
                        assert forall|v: nat|
                            v < pow16(k as nat) && pos + k <= s@.len() && s@.subrange(
                                pos as int,
                                (pos + k) as int,
                            ) == hex_seq(v, k as nat) implies false by {
                            let whole = s@.subrange(pos as int, (pos + k) as int);
                            assert(whole[0] == c);
                            lemma_tail_subrange(s@, pos as int, k as int, v);
                            lemma_hex_char_injective(v % 16, d as nat);
                            assert(v / 16 < pow16((k - 1) as nat));
                        };
                    }
                    None
                },
                Some((w, end)) => {
                    proof {
                        lemma_pow16_values();
                        lemma_pow16_mono((k - 1) as nat, 15);
                        assert((w as nat) < pow16((k - 1) as nat));
                        assert(16 * (w as nat) + (d as nat) < 16 * pow16((k - 1) as nat));
                    }
                    let v = d + 16 * w;
                    proof {
                        // soundness: the consumed digits are the canonical
                        // encoding of the assembled value
                        assert((v as nat) % 16 == d as nat && (v as nat) / 16 == w as nat);
                        let tail = s@.subrange((pos + 1) as int, (pos + k) as int);
                        lemma_hex_seq_len(w as nat, (k - 1) as nat);
                        assert(s@.subrange(pos as int, (pos + k) as int) =~= seq![c] + tail);
                        assert(seq![c] + tail == hex_seq(v as nat, k as nat));
                        // completeness: any value whose encoding sits here
                        // is the assembled one
                        assert forall|u: nat|
                            u < pow16(k as nat) && pos + k <= s@.len() && s@.subrange(
                                pos as int,
                                (pos + k) as int,
                            ) == hex_seq(u, k as nat) implies u == v as nat by {
                            let whole = s@.subrange(pos as int, (pos + k) as int);
                            assert(whole[0] == c);
                            lemma_tail_subrange(s@, pos as int, k as int, u);
                            lemma_hex_char_injective(u % 16, d as nat);
                            assert(u / 16 < pow16((k - 1) as nat));
                            assert(u / 16 == w as nat);
                            assert(u == 16 * (u / 16) + u % 16);
                        };
                    }
                    Some((v, end))
                },
            }
        },
    }
}

/// Parse the fixed-width encoding of a 64-bit integer.
pub fn parse_u64(s: &str, pos: usize) -> (r: Option<(u64, usize)>)
    requires
        pos <= s@.len(),
    ensures
        r matches Some(p) ==> ({
            &&& pos + 16 <= s@.len()
            &&& p.1 == pos + 16
            &&& s@.subrange(pos as int, (pos + 16) as int) == ser_u64(p.0 as nat)
        }),
        forall|v: nat|
            v < pow16(16) && pos + 16 <= s@.len() && s@.subrange(pos as int, (pos + 16) as int)
                == ser_u64(v) ==> (r matches Some(p) && p.0 == v && p.1 == pos + 16),
{
    parse_hex(s, pos, 16)
}

/// Parse a string encoding: a length, then that many characters.
fn parse_str(s: &str, pos: usize) -> (r: Option<(String, usize)>)
    requires
        pos <= s@.len(),
    ensures
        r matches Some(p) ==> ({
            &&& pos <= p.1 <= s@.len()
            &&& s@.subrange(pos as int, p.1 as int) == ser_str(p.0@)
            &&& str_ok(p.0@)
            &&& p.1 == pos + 16 + p.0@.len()
        }),
        forall|t: Seq<char>|
            str_ok(t) && pos + 16 + t.len() <= s@.len() && s@.subrange(
                pos as int,
                pos + 16 + t.len(),
            ) == ser_str(t) ==> (r matches Some(p) && p.0@ == t && p.1 == pos + 16 + t.len()),
{
    let slen = s.unicode_len();
    match parse_u64(s, pos) {
        None => {
            proof {
                assert forall|t: Seq<char>|
                    str_ok(t) && pos + 16 + t.len() <= s@.len() && s@.subrange(
                        pos as int,
                        pos + 16 + t.len(),
                    ) == ser_str(t) implies false by {
                    lemma_hex_seq_len(t.len(), 16);
                    lemma_pow16_values();
                    lemma_split_prefix(s@, pos as int, ser_u64(t.len()), t);
                };
            }
            None
        },
        Some((len_u, p1)) => {
            if ((slen - p1) as u64) < len_u {
                proof {
                    assert forall|t: Seq<char>|
                        str_ok(t) && pos + 16 + t.len() <= s@.len() && s@.subrange(
                            pos as int,
                            pos + 16 + t.len(),
                        ) == ser_str(t) implies false by {
                        lemma_hex_seq_len(t.len(), 16);
                        lemma_pow16_values();
                        lemma_split_prefix(s@, pos as int, ser_u64(t.len()), t);
                    };
                }
                None
            } else {
                let len = len_u as usize;
                let end = p1 + len;
                let content = s.substring_char(p1, end);
                let t = content.to_owned();
                proof {
                    lemma_hex_seq_len(len_u as nat, 16);
                    lemma_pow16_values();
                    assert(s@.subrange(pos as int, end as int) =~= s@.subrange(
                        pos as int,
                        p1 as int,
                    ) + s@.subrange(p1 as int, end as int));
                    assert(s@.subrange(pos as int, end as int) == ser_str(t@));
                    assert forall|u: Seq<char>|
                        str_ok(u) && pos + 16 + u.len() <= s@.len() && s@.subrange(
                            pos as int,
                            pos + 16 + u.len(),
                        ) == ser_str(u) implies (u == t@ && pos + 16 + u.len() == end) by {
                        lemma_hex_seq_len(u.len(), 16);
                        lemma_split_prefix(s@, pos as int, ser_u64(u.len()), u);
                    };
                }
                Some((t, end))
            }
        },
    }
}

/// Parse an optional-string encoding: a tag, then a string if present.
fn parse_opt_str(s: &str, pos: usize) -> (r: Option<(Option<String>, usize)>)
    requires
        pos <= s@.len(),
    ensures
        r matches Some(p) ==> ({
            &&& pos <= p.1 <= s@.len()
            &&& s@.subrange(pos as int, p.1 as int) == ser_opt_str(opt_str_view(p.0))
            &&& opt_str_ok(opt_str_view(p.0))
        }),
        forall|o: Option<Seq<char>>|
            opt_str_ok(o) && pos + ser_opt_str(o).len() <= s@.len() && s@.subrange(
                pos as int,
                pos + ser_opt_str(o).len(),
            ) == ser_opt_str(o) ==> (r matches Some(p) && opt_str_view(p.0) == o && p.1 == pos
                + ser_opt_str(o).len()),
{
    let slen = s.unicode_len();
    if slen <= pos {
        proof {
            assert forall|o: Option<Seq<char>>|
                opt_str_ok(o) && pos + ser_opt_str(o).len() <= s@.len() && s@.subrange(
                    pos as int,
                    pos + ser_opt_str(o).len(),
                ) == ser_opt_str(o) implies false by {
                match o {
                    Option::None => assert(ser_opt_str(o).len() == 1),
                    Option::Some(t) => assert(ser_opt_str(o).len() >= 1),
                }
            };
        }
        return None;
    }
    let c = s.get_char(pos);
    if c == 'N' {
        proof {
            assert(s@.subrange(pos as int, (pos + 1) as int) =~= seq!['N']);
            assert forall|o: Option<Seq<char>>|
                opt_str_ok(o) && pos + ser_opt_str(o).len() <= s@.len() && s@.subrange(
                    pos as int,
                    pos + ser_opt_str(o).len(),
                ) == ser_opt_str(o) implies (o is None && pos + ser_opt_str(o).len() == pos
                + 1) by {
                match o {
                    Option::None => {},
                    Option::Some(t) => {
                        assert(ser_opt_str(o)[0] == 'S');
                        assert(s@.subrange(pos as int, pos + ser_opt_str(o).len())[0] == 'N');
                    },
                }
            };
        }
        Some((None, pos + 1))
    } else if c == 'S' {
        match parse_str(s, pos + 1) {
            None => {
                proof {
                    assert forall|o: Option<Seq<char>>|
                        opt_str_ok(o) && pos + ser_opt_str(o).len() <= s@.len() && s@.subrange(
                            pos as int,
                            pos + ser_opt_str(o).len(),
                        ) == ser_opt_str(o) implies false by {
                        match o {
                            Option::None => {
                                assert(ser_opt_str(o)[0] == 'N');
                                assert(s@.subrange(pos as int, pos + ser_opt_str(o).len())[0]
                                    == 'S');
                            },
                            Option::Some(t) => {
                                lemma_hex_seq_len(t.len(), 16);
                                lemma_split_prefix(s@, pos as int, seq!['S'], ser_str(t));
                            },
                        }
                    };
                }
                None
            },
            Some((t, end)) => {
                proof {
                    assert(s@.subrange(pos as int, end as int) =~= seq!['S'] + s@.subrange(
                        (pos + 1) as int,
                        end as int,
                    ));
                    assert forall|o: Option<Seq<char>>|
                        opt_str_ok(o) && pos + ser_opt_str(o).len() <= s@.len() && s@.subrange(
                            pos as int,
                            pos + ser_opt_str(o).len(),
                        ) == ser_opt_str(o) implies (o matches Some(u) && u == t@ && pos
                        + ser_opt_str(o).len() == end) by {
                        match o {
                            Option::None => {
                                assert(ser_opt_str(o)[0] == 'N');
                                assert(s@.subrange(pos as int, pos + ser_opt_str(o).len())[0]
                                    == 'S');
                            },
                            Option::Some(u) => {
                                lemma_hex_seq_len(u.len(), 16);
                                lemma_split_prefix(s@, pos as int, seq!['S'], ser_str(u));
                            },
                        }
                    };
                }
                Some((Some(t), end))
            },
        }
    } else {
        proof {
            assert forall|o: Option<Seq<char>>|
                opt_str_ok(o) && pos + ser_opt_str(o).len() <= s@.len() && s@.subrange(
                    pos as int,
                    pos + ser_opt_str(o).len(),
                ) == ser_opt_str(o) implies false by {
                match o {
                    Option::None => {
                        assert(ser_opt_str(o)[0] == 'N');
                        assert(s@.subrange(pos as int, pos + ser_opt_str(o).len())[0] == c);
                    },
                    Option::Some(t) => {
                        assert((seq!['S'] + ser_str(t))[0] == 'S');
                        assert(s@.subrange(pos as int, pos + ser_opt_str(o).len())[0] == c);
                    },
                }
            };
        }
        None
    }
}

/// Parse an optional-timestamp encoding.
fn parse_opt_i64(s: &str, pos: usize) -> (r: Option<(Option<i64>, usize)>)
    requires
        pos <= s@.len(),
    ensures
        r matches Some(p) ==> ({
            &&& pos <= p.1 <= s@.len()
            &&& s@.subrange(pos as int, p.1 as int) == ser_opt_i64(p.0)
        }),
        forall|o: Option<i64>|
            pos + ser_opt_i64(o).len() <= s@.len() && s@.subrange(
                pos as int,
                pos + ser_opt_i64(o).len(),
            ) == ser_opt_i64(o) ==> (r matches Some(p) && p.0 == o && p.1 == pos + ser_opt_i64(
                o,
            ).len()),
{
    let slen = s.unicode_len();
    if slen <= pos {
        proof {
            assert forall|o: Option<i64>|
                pos + ser_opt_i64(o).len() <= s@.len() && s@.subrange(
                    pos as int,
                    pos + ser_opt_i64(o).len(),
                ) == ser_opt_i64(o) implies false by {
                match o {
                    Option::None => assert(ser_opt_i64(o).len() == 1),
                    Option::Some(x) => assert(ser_opt_i64(o).len() >= 1),
                }
            };
        }
        return None;
    }
    let c = s.get_char(pos);
    if c == 'N' {
        proof {
            assert(s@.subrange(pos as int, (pos + 1) as int) =~= seq!['N']);
            assert forall|o: Option<i64>|
                pos + ser_opt_i64(o).len() <= s@.len() && s@.subrange(
                    pos as int,
                    pos + ser_opt_i64(o).len(),
                ) == ser_opt_i64(o) implies (o is None && pos + ser_opt_i64(o).len() == pos
                + 1) by {
                match o {
                    Option::None => {},
                    Option::Some(x) => {
                        assert(ser_opt_i64(o)[0] == 'I');
                        assert(s@.subrange(pos as int, pos + ser_opt_i64(o).len())[0] == 'N');
                    },
                }
            };
        }
        Some((None, pos + 1))
    } else if c == 'I' {
        match parse_u64(s, pos + 1) {
            None => {
                proof {
                    lemma_pow16_values();
                    assert forall|o: Option<i64>|
                        pos + ser_opt_i64(o).len() <= s@.len() && s@.subrange(
                            pos as int,
                            pos + ser_opt_i64(o).len(),
                        ) == ser_opt_i64(o) implies false by {
                        match o {
                            Option::None => {
                                assert(ser_opt_i64(o)[0] == 'N');
                                assert(s@.subrange(pos as int, pos + ser_opt_i64(o).len())[0]
                                    == 'I');
                            },
                            Option::Some(x) => {
                                lemma_hex_seq_len((x as u64) as nat, 16);
                                lemma_split_prefix(
                                    s@,
                                    pos as int,
                                    seq!['I'],
                                    ser_u64((x as u64) as nat),
                                );
                            },
                        }
                    };
                }
                None
            },
            Some((v, end)) => {
                let x = v as i64;
                proof {
                    lemma_pow16_values();
                    assert((v as i64) as u64 == v) by (bit_vector);
                    assert(s@.subrange(pos as int, end as int) =~= seq!['I'] + s@.subrange(
                        (pos + 1) as int,
                        end as int,
                    ));
                    assert(s@.subrange(pos as int, end as int) == ser_opt_i64(Option::Some(x)));
                    assert forall|o: Option<i64>|
                        pos + ser_opt_i64(o).len() <= s@.len() && s@.subrange(
                            pos as int,
                            pos + ser_opt_i64(o).len(),
                        ) == ser_opt_i64(o) implies (o matches Some(y) && y == x && pos
                        + ser_opt_i64(o).len() == end) by {
                        match o {
                            Option::None => {
                                assert(ser_opt_i64(o)[0] == 'N');
                                assert(s@.subrange(pos as int, pos + ser_opt_i64(o).len())[0]
                                    == 'I');
                            },
                            Option::Some(y) => {
                                lemma_hex_seq_len((y as u64) as nat, 16);
                                lemma_split_prefix(
                                    s@,
                                    pos as int,
                                    seq!['I'],
                                    ser_u64((y as u64) as nat),
                                );
                                assert(v == y as u64);
                                assert((y as u64) as i64 == y) by (bit_vector);
                            },
                        }
                    };
                }
                Some((Some(x), end))
            },
        }
    } else {
        proof {
            assert forall|o: Option<i64>|
                pos + ser_opt_i64(o).len() <= s@.len() && s@.subrange(
                    pos as int,
                    pos + ser_opt_i64(o).len(),
                ) == ser_opt_i64(o) implies false by {
                match o {
                    Option::None => {
                        assert(ser_opt_i64(o)[0] == 'N');
                        assert(s@.subrange(pos as int, pos + ser_opt_i64(o).len())[0] == c);
                    },
                    Option::Some(x) => {
                        assert((seq!['I'] + ser_u64((x as u64) as nat))[0] == 'I');
                        assert(s@.subrange(pos as int, pos + ser_opt_i64(o).len())[0] == c);
                    },
                }
            };
        }
        None
    }
}

/// Parse a payload encoding: its four fields in order.
fn parse_token(s: &str, pos: usize) -> (r: Option<(TokenInfo, usize)>)
    requires
        pos <= s@.len(),
    ensures
        r matches Some(p) ==> ({
            &&& pos <= p.1 <= s@.len()
            &&& s@.subrange(pos as int, p.1 as int) == ser_token(p.0@)
            &&& token_ok(p.0@)
        }),
        forall|t: crate::index::TokenInfoView|
            token_ok(t) && pos + ser_token(t).len() <= s@.len() && s@.subrange(
                pos as int,
                pos + ser_token(t).len(),
            ) == ser_token(t) ==> (r matches Some(p) && p.0@ == t && p.1 == pos + ser_token(
                t,
            ).len()),
{
    let r1 = parse_opt_str(s, pos);
    match r1 {
        None => {
            proof {
                assert forall|t: crate::index::TokenInfoView|
                    token_ok(t) && pos + ser_token(t).len() <= s@.len() && s@.subrange(
                        pos as int,
                        pos + ser_token(t).len(),
                    ) == ser_token(t) implies false by {
                    lemma_token_stage(s@, pos as int, t);
                };
            }
            return None;
        },
        Some((acc, p1)) => {
            let r2 = parse_opt_str(s, p1);
            match r2 {
                None => {
                    proof {
                        assert forall|t: crate::index::TokenInfoView|
                            token_ok(t) && pos + ser_token(t).len() <= s@.len() && s@.subrange(
                                pos as int,
                                pos + ser_token(t).len(),
                            ) == ser_token(t) implies false by {
                            lemma_token_stage(s@, pos as int, t);
                        };
                    }
                    return None;
                },
                Some((refr, p2)) => {
                    let r3 = parse_opt_i64(s, p2);
                    match r3 {
                        None => {
                            proof {
                                assert forall|t: crate::index::TokenInfoView|
                                    token_ok(t) && pos + ser_token(t).len() <= s@.len()
                                        && s@.subrange(pos as int, pos + ser_token(t).len())
                                        == ser_token(t) implies false by {
                                    lemma_token_stage(s@, pos as int, t);
                                };
                            }
                            return None;
                        },
                        Some((exp, p3)) => {
                            let r4 = parse_opt_str(s, p3);
                            match r4 {
                                None => {
                                    proof {
                                        assert forall|t: crate::index::TokenInfoView|
                                            token_ok(t) && pos + ser_token(t).len() <= s@.len()
                                                && s@.subrange(
                                                pos as int,
                                                pos + ser_token(t).len(),
                                            ) == ser_token(t) implies false by {
                                            lemma_token_stage(s@, pos as int, t);
                                        };
                                    }
                                    return None;
                                },
                                Some((idt, p4)) => {
                                    let tok = TokenInfo {
                                        access_token: acc,
                                        refresh_token: refr,
                                        expires_at: exp,
                                        id_token: idt,
                                    };
                                    proof {
                                        assert(s@.subrange(pos as int, p4 as int) =~= s@.subrange(
                                            pos as int,
                                            p1 as int,
                                        ) + (s@.subrange(p1 as int, p2 as int) + (s@.subrange(
                                            p2 as int,
                                            p3 as int,
                                        ) + s@.subrange(p3 as int, p4 as int))));
                                        assert(s@.subrange(pos as int, p4 as int) == ser_token(
                                            tok@,
                                        ));
                                        assert forall|t: crate::index::TokenInfoView|
                                            token_ok(t) && pos + ser_token(t).len() <= s@.len()
                                                && s@.subrange(
                                                pos as int,
                                                pos + ser_token(t).len(),
                                            ) == ser_token(t) implies (tok@ == t && pos
                                            + ser_token(t).len() == p4) by {
                                            lemma_token_stage(s@, pos as int, t);
                                        };
                                    }
                                    Some((tok, p4))
                                },
                            }
                        },
                    }
                },
            }
        },
    }
}

/// Splits a payload encoding standing at `pos` into its four field
/// encodings, each in its own range.
proof fn lemma_token_stage(s: Seq<char>, pos: int, t: crate::index::TokenInfoView)
    requires
        0 <= pos,
        pos + ser_token(t).len() <= s.len(),
        s.subrange(pos, pos + ser_token(t).len()) == ser_token(t),
    ensures
        ({
            let l1 = ser_opt_str(t.access_token).len();
            let l2 = ser_opt_str(t.refresh_token).len();
            let l3 = ser_opt_i64(t.expires_at).len();
            let l4 = ser_opt_str(t.id_token).len();
            &&& s.subrange(pos, pos + l1) == ser_opt_str(t.access_token)
            &&& s.subrange(pos + l1, pos + l1 + l2) == ser_opt_str(t.refresh_token)
            &&& s.subrange(pos + l1 + l2, pos + l1 + l2 + l3) == ser_opt_i64(t.expires_at)
            &&& s.subrange(pos + l1 + l2 + l3, pos + l1 + l2 + l3 + l4) == ser_opt_str(t.id_token)
            &&& ser_token(t).len() == l1 + l2 + l3 + l4
        }),
{
    let a1 = ser_opt_str(t.access_token);
    let a2 = ser_opt_str(t.refresh_token);
    let a3 = ser_opt_i64(t.expires_at);
    let a4 = ser_opt_str(t.id_token);
    assert(ser_token(t).len() == a1.len() + a2.len() + a3.len() + a4.len());
    lemma_split_prefix(s, pos, a1, a2 + (a3 + a4));
    lemma_split_prefix(s, pos + a1.len(), a2, a3 + a4);
    lemma_split_prefix(s, pos + a1.len() + a2.len(), a3, a4);
    assert(s.subrange(
        pos + a1.len() + a2.len() + a3.len(),
        pos + a1.len() + a2.len() + a3.len() + a4.len(),
    ) == a4);
}

/// A run of scope encodings splits at any midpoint.
proof fn lemma_ser_scopes_split(sc: Seq<Seq<char>>, i: int)
    requires
        0 <= i <= sc.len(),
    ensures
        ser_scopes(sc) == ser_scopes(sc.take(i)) + ser_scopes(sc.skip(i)),
    decreases i,
{
    if i == 0 {
        assert(sc.take(0) =~= Seq::<Seq<char>>::empty());
        assert(sc.skip(0) =~= sc);
        assert(ser_scopes(sc.take(0)) =~= Seq::<char>::empty());
        assert(ser_scopes(sc) =~= ser_scopes(sc.take(0)) + ser_scopes(sc.skip(0)));
    } else {
        lemma_ser_scopes_split(sc.drop_first(), i - 1);
        assert(sc.take(i)[0] == sc[0]);
        assert(sc.take(i).drop_first() =~= sc.drop_first().take(i - 1));
        assert(sc.skip(i) =~= sc.drop_first().skip(i - 1));
        assert(ser_scopes(sc.take(i)) == ser_str(sc[0]) + ser_scopes(sc.drop_first().take(i - 1)));
        assert((ser_str(sc[0]) + ser_scopes(sc.drop_first().take(i - 1))) + ser_scopes(sc.skip(i))
            =~= ser_str(sc[0]) + (ser_scopes(sc.drop_first().take(i - 1)) + ser_scopes(
            sc.drop_first().skip(i - 1),
        )));
    }
}

/// A run of record encodings splits at any midpoint.
proof fn lemma_ser_records_split(es: Seq<(Seq<Seq<char>>, crate::index::TokenInfoView)>, i: int)
    requires
        0 <= i <= es.len(),
    ensures
        ser_records(es) == ser_records(es.take(i)) + ser_records(es.skip(i)),
    decreases i,
{
    if i == 0 {
        assert(es.take(0) =~= Seq::<(Seq<Seq<char>>, crate::index::TokenInfoView)>::empty());
        assert(es.skip(0) =~= es);
        assert(ser_records(es.take(0)) =~= Seq::<char>::empty());
        assert(ser_records(es) =~= ser_records(es.take(0)) + ser_records(es.skip(0)));
    } else {
        lemma_ser_records_split(es.drop_first(), i - 1);
        assert(es.take(i)[0] == es[0]);
        assert(es.take(i).drop_first() =~= es.drop_first().take(i - 1));
        assert(es.skip(i) =~= es.drop_first().skip(i - 1));
        assert(ser_records(es.take(i)) == ser_record(es[0].0, es[0].1) + ser_records(
            es.drop_first().take(i - 1),
        ));
        assert((ser_record(es[0].0, es[0].1) + ser_records(es.drop_first().take(i - 1)))
            + ser_records(es.skip(i)) =~= ser_record(es[0].0, es[0].1) + (ser_records(
            es.drop_first().take(i - 1),
        ) + ser_records(es.drop_first().skip(i - 1))));
    }
}

/// What stands at the head of the tail of a sequence stands in a range.
proof fn lemma_skip_to_subrange(s: Seq<char>, pos: int, x: Seq<char>, y: Seq<char>)
    requires
        0 <= pos <= s.len(),
        s.skip(pos) == x + y,
    ensures
        pos + x.len() <= s.len(),
        s.subrange(pos, pos + x.len()) == x,
        s.skip(pos + x.len()) == y,
{
    assert(s.skip(pos).len() == x.len() + y.len());
    assert forall|j: int| 0 <= j < x.len() implies s.subrange(pos, pos + x.len())[j] == x[j] by {
        assert(s.skip(pos)[j] == s[pos + j]);
        assert((x + y)[j] == x[j]);
    }
    assert(s.subrange(pos, pos + x.len()) =~= x);
    assert forall|j: int| 0 <= j < y.len() implies s.skip(pos + x.len())[j] == y[j] by {
        assert(s.skip(pos)[x.len() + j] == s[pos + x.len() + j]);
        assert((x + y)[x.len() + j] == y[j]);
    }
    assert(s.skip(pos + x.len()) =~= y);
}

/// A record encoding standing at `pos` yields its count header and
/// leaves its scopes and payload at the tail.
proof fn lemma_record_stage(s: Seq<char>, pos: int, sc: Seq<Seq<char>>, tk: crate::index::TokenInfoView)
    requires
        0 <= pos,
        pos + ser_record(sc, tk).len() <= s.len(),
        s.subrange(pos, pos + ser_record(sc, tk).len()) == ser_record(sc, tk),
    ensures
        s.subrange(pos, pos + 16) == ser_u64(sc.len()),
        s.skip(pos + 16) == ser_scopes(sc) + (ser_token(tk) + s.skip(
            pos + ser_record(sc, tk).len(),
        )),
        ser_record(sc, tk).len() == 16 + ser_scopes(sc).len() + ser_token(tk).len(),
{
    lemma_hex_seq_len(sc.len(), 16);
    let body = ser_scopes(sc) + ser_token(tk);
    lemma_split_prefix(s, pos, ser_u64(sc.len()), body);
    let bodyend = pos + ser_record(sc, tk).len();
    lemma_skip_decompose(s, pos + 16, bodyend);
    assert(s.skip(pos + 16) == body + s.skip(bodyend));
    assert(body + s.skip(bodyend) =~= ser_scopes(sc) + (ser_token(tk) + s.skip(bodyend)));
}

/// What was parsed so far aligns with the head of any scope run whose
/// encoding fills the tail.
proof fn lemma_scopes_align(
    s: Seq<char>,
    base: int,
    cur: int,
    pv: Seq<Seq<char>>,
    sc: Seq<Seq<char>>,
    rest: Seq<char>,
)
    requires
        0 <= base <= cur <= s.len(),
        pv.len() <= sc.len(),
        forall|k: int| 0 <= k < pv.len() ==> str_ok(#[trigger] pv[k]),
        forall|k: int| 0 <= k < sc.len() ==> str_ok(#[trigger] sc[k]),
        s.subrange(base, cur) == ser_scopes(pv),
        s.skip(base) == ser_scopes(sc) + rest,
    ensures
        pv == sc.take(pv.len() as int),
        s.skip(cur) == ser_scopes(sc.skip(pv.len() as int)) + rest,
{
    let i = pv.len() as int;
    lemma_ser_scopes_split(sc, i);
    lemma_skip_decompose(s, base, cur);
    assert(s.skip(base) =~= ser_scopes(pv) + s.skip(cur));
    assert((ser_scopes(sc.take(i)) + ser_scopes(sc.skip(i))) + rest =~= ser_scopes(sc.take(i)) + (
    ser_scopes(sc.skip(i)) + rest));
    assert(forall|k: int| 0 <= k < i ==> str_ok(#[trigger] sc.take(i)[k]));
    lemma_psd_scopes(pv, sc.take(i), s.skip(cur), ser_scopes(sc.skip(i)) + rest);
}

/// What was parsed so far aligns with the head of any record run whose
/// encoding fills the tail.
proof fn lemma_records_align(
    s: Seq<char>,
    base: int,
    cur: int,
    pv: Seq<(Seq<Seq<char>>, crate::index::TokenInfoView)>,
    es: Seq<(Seq<Seq<char>>, crate::index::TokenInfoView)>,
    rest: Seq<char>,
)
    requires
        0 <= base <= cur <= s.len(),
        pv.len() <= es.len(),
        forall|k: int| 0 <= k < pv.len() ==> record_ok((#[trigger] pv[k]).0, pv[k].1),
        forall|k: int| 0 <= k < es.len() ==> record_ok((#[trigger] es[k]).0, es[k].1),
        s.subrange(base, cur) == ser_records(pv),
        s.skip(base) == ser_records(es) + rest,
    ensures
        pv == es.take(pv.len() as int),
        s.skip(cur) == ser_records(es.skip(pv.len() as int)) + rest,
{
    let i = pv.len() as int;
    lemma_ser_records_split(es, i);
    lemma_skip_decompose(s, base, cur);
    assert(s.skip(base) =~= ser_records(pv) + s.skip(cur));
    assert((ser_records(es.take(i)) + ser_records(es.skip(i))) + rest =~= ser_records(es.take(i))
        + (ser_records(es.skip(i)) + rest));
    assert(forall|k: int|
        0 <= k < i ==> record_ok((#[trigger] es.take(i)[k]).0, es.take(i)[k].1));
    lemma_psd_records(pv, es.take(i), s.skip(cur), ser_records(es.skip(i)) + rest);
}

/// Parse one record at `pos`: scope count, scopes, payload.
fn parse_record(s: &str, pos: usize) -> (r: Option<((Vec<String>, TokenInfo), usize)>)
    requires
        pos <= s@.len(),
    ensures
        r matches Some(p) ==> ({
            &&& pos <= p.1 <= s@.len()
            &&& s@.subrange(pos as int, p.1 as int) == ser_record(scope_views(p.0.0@), p.0.1@)
            &&& record_ok(scope_views(p.0.0@), p.0.1@)
        }),
        forall|sc: Seq<Seq<char>>, tk: crate::index::TokenInfoView|
            record_ok(sc, tk) && pos + ser_record(sc, tk).len() <= s@.len() && s@.subrange(
                pos as int,
                pos + ser_record(sc, tk).len(),
            ) == ser_record(sc, tk) ==> (r matches Some(p) && scope_views(p.0.0@) == sc && p.0.1@
                == tk && p.1 == pos + ser_record(sc, tk).len()),
{
    let slen = s.unicode_len();
    let header = parse_u64(s, pos);
    match header {
        None => {
            proof {
                lemma_pow16_values();
                assert forall|sc: Seq<Seq<char>>, tk: crate::index::TokenInfoView|
                    record_ok(sc, tk) && pos + ser_record(sc, tk).len() <= s@.len() && s@.subrange(
                        pos as int,
                        pos + ser_record(sc, tk).len(),
                    ) == ser_record(sc, tk) implies false by {
                    lemma_record_stage(s@, pos as int, sc, tk);
                };
            }
            return None;
        },
        Some((cnt, p0)) => {
            proof {
                lemma_pow16_values();
            }
            let mut scopes: Vec<String> = Vec::new();
            let mut cur = p0;
            let mut i: u64 = 0;
            while i < cnt
                invariant
                    i <= cnt,
                    pos + 16 == p0,
                    p0 <= cur <= s@.len(),
                    slen == s@.len(),
                    scopes@.len() == i,
                    (cnt as nat) < pow16(16),
                    s@.subrange(pos as int, p0 as int) == ser_u64(cnt as nat),
                    s@.subrange(p0 as int, cur as int) == ser_scopes(scope_views(scopes@)),
                    forall|k: int|
                        0 <= k < scopes@.len() ==> str_ok(#[trigger] scope_views(scopes@)[k]),
                decreases cnt - i,
            {
                let step = parse_str(s, cur);
                match step {
                    None => {
                        proof {
                            lemma_pow16_values();
                            assert forall|sc: Seq<Seq<char>>, tk: crate::index::TokenInfoView|
                                record_ok(sc, tk) && pos + ser_record(sc, tk).len() <= s@.len()
                                    && s@.subrange(pos as int, pos + ser_record(sc, tk).len())
                                    == ser_record(sc, tk) implies false by {
                                lemma_record_stage(s@, pos as int, sc, tk);
                                lemma_hex_seq_inj(sc.len(), cnt as nat, 16);
                                let pv = scope_views(scopes@);
                                lemma_scopes_align(
                                    s@,
                                    p0 as int,
                                    cur as int,
                                    pv,
                                    sc,
                                    ser_token(tk) + s@.skip(pos + ser_record(sc, tk).len()),
                                );
                                assert(sc.skip(i as int)[0] == sc[i as int]);
                                assert(sc.skip(i as int).drop_first() =~= sc.skip(i as int + 1));
                                assert(ser_scopes(sc.skip(i as int)) == ser_str(sc[i as int])
                                    + ser_scopes(sc.skip(i as int + 1)));
                                let rest2 = ser_scopes(sc.skip(i as int + 1)) + (ser_token(tk)
                                    + s@.skip(pos + ser_record(sc, tk).len()));
                                assert(s@.skip(cur as int) =~= ser_str(sc[i as int]) + rest2);
                                lemma_skip_to_subrange(s@, cur as int, ser_str(sc[i as int]), rest2);
                                lemma_hex_seq_len(sc[i as int].len(), 16);
                            };
                        }
                        return None;
                    },
                    Some((t, nxt)) => {
                        proof {
                            assert(scope_views(scopes@.push(t)) =~= scope_views(scopes@).push(t@));
                            lemma_ser_scopes_push(scope_views(scopes@), t@);
                            assert(s@.subrange(p0 as int, nxt as int) =~= s@.subrange(
                                p0 as int,
                                cur as int,
                            ) + s@.subrange(cur as int, nxt as int));
                        }
                        scopes.push(t);
                        i = i + 1;
                        cur = nxt;
                    },
                }
            }
            let tail = parse_token(s, cur);
            match tail {
                None => {
                    proof {
                        lemma_pow16_values();
                        assert forall|sc: Seq<Seq<char>>, tk: crate::index::TokenInfoView|
                            record_ok(sc, tk) && pos + ser_record(sc, tk).len() <= s@.len()
                                && s@.subrange(pos as int, pos + ser_record(sc, tk).len())
                                == ser_record(sc, tk) implies false by {
                            lemma_record_stage(s@, pos as int, sc, tk);
                            lemma_hex_seq_inj(sc.len(), cnt as nat, 16);
                            let pv = scope_views(scopes@);
                            lemma_scopes_align(
                                s@,
                                p0 as int,
                                cur as int,
                                pv,
                                sc,
                                ser_token(tk) + s@.skip(pos + ser_record(sc, tk).len()),
                            );
                            assert(sc.skip(sc.len() as int) =~= Seq::<Seq<char>>::empty());
                            assert(s@.skip(cur as int) =~= ser_token(tk) + s@.skip(
                                pos + ser_record(sc, tk).len(),
                            ));
                            lemma_skip_to_subrange(
                                s@,
                                cur as int,
                                ser_token(tk),
                                s@.skip(pos + ser_record(sc, tk).len()),
                            );
                        };
                    }
                    None
                },
                Some((tok, end)) => {
                    proof {
                        lemma_pow16_values();
                        let views = scope_views(scopes@);
                        assert(s@.subrange(pos as int, end as int) =~= s@.subrange(
                            pos as int,
                            p0 as int,
                        ) + (s@.subrange(p0 as int, cur as int) + s@.subrange(
                            cur as int,
                            end as int,
                        )));
                        assert(views.len() == cnt as nat);
                        assert(s@.subrange(pos as int, end as int) == ser_record(views, tok@));
                        assert forall|sc: Seq<Seq<char>>, tk: crate::index::TokenInfoView|
                            record_ok(sc, tk) && pos + ser_record(sc, tk).len() <= s@.len()
                                && s@.subrange(pos as int, pos + ser_record(sc, tk).len())
                                == ser_record(sc, tk) implies (views == sc && tok@ == tk && pos
                            + ser_record(sc, tk).len() == end) by {
                            lemma_record_stage(s@, pos as int, sc, tk);
                            lemma_hex_seq_inj(sc.len(), cnt as nat, 16);
                            lemma_scopes_align(
                                s@,
                                p0 as int,
                                cur as int,
                                views,
                                sc,
                                ser_token(tk) + s@.skip(pos + ser_record(sc, tk).len()),
                            );
                            assert(sc.take(sc.len() as int) =~= sc);
                            assert(sc.skip(sc.len() as int) =~= Seq::<Seq<char>>::empty());
                            assert(s@.skip(cur as int) =~= ser_token(tk) + s@.skip(
                                pos + ser_record(sc, tk).len(),
                            ));
                            lemma_skip_to_subrange(
                                s@,
                                cur as int,
                                ser_token(tk),
                                s@.skip(pos + ser_record(sc, tk).len()),
                            );
                            assert(s@.skip(pos + ser_record(sc, tk).len()).len() == s@.len() - (pos
                                + ser_record(sc, tk).len()));
                        };
                    }
                    Some(((scopes, tok), end))
                },
            }
        },
    }
}

/// The mathematical values of parsed records: for each, its scope
/// character sequences and its payload value.
pub open spec fn raw_views(rs: Seq<(Vec<String>, TokenInfo)>) -> Seq<
    (Seq<Seq<char>>, crate::index::TokenInfoView),
> {
    Seq::new(rs.len(), |i: int| (scope_views(rs[i].0@), rs[i].1@))
}

/// Parse a whole persisted file. Returns the records exactly when the
/// input is the canonical encoding of some record sequence, and nothing
/// otherwise (a malformed file is rejected, never repaired).
pub fn parse_index_str(s: &str) -> (r: Option<Vec<(Vec<String>, TokenInfo)>>)
    ensures
        r matches Some(v) ==> s@ == ser_index(raw_views(v@)) && entries_ok(raw_views(v@)),
        forall|es: Seq<(Seq<Seq<char>>, crate::index::TokenInfoView)>|
            entries_ok(es) && s@ == ser_index(es) ==> (r matches Some(v) && raw_views(v@) == es),
{
    let slen = s.unicode_len();
    let header = parse_u64(s, 0);
    match header {
        None => {
            proof {
                lemma_pow16_values();
                assert forall|es: Seq<(Seq<Seq<char>>, crate::index::TokenInfoView)>|
                    entries_ok(es) && s@ == ser_index(es) implies false by {
                    lemma_index_stage(s@, es);
                };
            }
            None
        },
        Some((cnt, p0)) => {
            proof {
                lemma_pow16_values();
            }
            let mut out: Vec<(Vec<String>, TokenInfo)> = Vec::new();
            let mut cur = p0;
            let mut i: u64 = 0;
            while i < cnt
                invariant
                    i <= cnt,
                    p0 == 16,
                    p0 <= cur <= s@.len(),
                    slen == s@.len(),
                    out@.len() == i,
                    (cnt as nat) < pow16(16),
                    s@.subrange(0, p0 as int) == ser_u64(cnt as nat),
                    s@.subrange(p0 as int, cur as int) == ser_records(raw_views(out@)),
                    forall|k: int|
                        0 <= k < out@.len() ==> record_ok(
                            (#[trigger] raw_views(out@)[k]).0,
                            raw_views(out@)[k].1,
                        ),
                decreases cnt - i,
            {
                let step = parse_record(s, cur);
                match step {
                    None => {
                        proof {
                            assert forall|es: Seq<(Seq<Seq<char>>, crate::index::TokenInfoView)>|
                                entries_ok(es) && s@ == ser_index(es) implies false by {
                                lemma_index_stage(s@, es);
                                lemma_hex_seq_inj(es.len(), cnt as nat, 16);
                                let pv = raw_views(out@);
                                lemma_records_align(
                                    s@,
                                    p0 as int,
                                    cur as int,
                                    pv,
                                    es,
                                    Seq::<char>::empty(),
                                );
                                assert(es.skip(i as int)[0] == es[i as int]);
                                assert(es.skip(i as int).drop_first() =~= es.skip(i as int + 1));
                                assert(ser_records(es.skip(i as int)) == ser_record(
                                    es[i as int].0,
                                    es[i as int].1,
                                ) + ser_records(es.skip(i as int + 1)));
                                let rest2 = ser_records(es.skip(i as int + 1))
                                    + Seq::<char>::empty();
                                assert(s@.skip(cur as int) =~= ser_record(
                                    es[i as int].0,
                                    es[i as int].1,
                                ) + rest2);
                                lemma_skip_to_subrange(
                                    s@,
                                    cur as int,
                                    ser_record(es[i as int].0, es[i as int].1),
                                    rest2,
                                );
                            };
                        }
                        return None;
                    },
                    Some((rec, nxt)) => {
                        proof {
                            assert(raw_views(out@.push(rec)) =~= raw_views(out@).push(
                                (scope_views(rec.0@), rec.1@),
                            ));
                            lemma_ser_records_push(raw_views(out@), (scope_views(rec.0@), rec.1@));
                            assert(s@.subrange(p0 as int, nxt as int) =~= s@.subrange(
                                p0 as int,
                                cur as int,
                            ) + s@.subrange(cur as int, nxt as int));
                        }
                        out.push(rec);
                        i = i + 1;
                        cur = nxt;
                    },
                }
            }
            if cur < slen {
                proof {
                    assert forall|es: Seq<(Seq<Seq<char>>, crate::index::TokenInfoView)>|
                        entries_ok(es) && s@ == ser_index(es) implies false by {
                        lemma_index_stage(s@, es);
                        lemma_hex_seq_inj(es.len(), cnt as nat, 16);
                        lemma_records_align(
                            s@,
                            p0 as int,
                            cur as int,
                            raw_views(out@),
                            es,
                            Seq::<char>::empty(),
                        );
                        assert(es.skip(es.len() as int) =~= Seq::<(Seq<Seq<char>>,
                        crate::index::TokenInfoView)>::empty());
                        assert(s@.skip(cur as int) =~= Seq::<char>::empty());
                        assert(s@.skip(cur as int).len() == s@.len() - cur);
                    };
                }
                return None;
            }
            proof {
                let pv = raw_views(out@);
                assert(s@ =~= s@.subrange(0, p0 as int) + s@.subrange(p0 as int, cur as int));
                assert(pv.len() == cnt as nat);
                assert(s@ == ser_index(pv));
                assert forall|es: Seq<(Seq<Seq<char>>, crate::index::TokenInfoView)>|
                    entries_ok(es) && s@ == ser_index(es) implies pv == es by {
                    lemma_index_stage(s@, es);
                    lemma_hex_seq_inj(es.len(), cnt as nat, 16);
                    lemma_records_align(s@, p0 as int, cur as int, pv, es, Seq::<char>::empty());
                    assert(es.take(es.len() as int) =~= es);
                };
            }
            Some(out)
        },
    }
}

/// A whole-file encoding yields its count header and leaves the record
/// run as the whole tail.
proof fn lemma_index_stage(s: Seq<char>, es: Seq<(Seq<Seq<char>>, crate::index::TokenInfoView)>)
    requires
        s == ser_index(es),
    ensures
        16 <= s.len(),
        s.subrange(0, 16) == ser_u64(es.len()),
        s.skip(16) == ser_records(es) + Seq::<char>::empty(),
{
    lemma_hex_seq_len(es.len(), 16);
    assert(s.len() == ser_u64(es.len()).len() + ser_records(es).len());
    assert(s.subrange(0, s.len() as int) =~= s);
    lemma_split_prefix(s, 0, ser_u64(es.len()), ser_records(es));
    lemma_skip_decompose(s, 16, s.len() as int);
    assert(s.skip(s.len() as int) =~= Seq::<char>::empty());
    assert(s.subrange(16, s.len() as int) == ser_records(es));
    assert(ser_records(es) + Seq::<char>::empty() =~= ser_records(es));
}

/// The decimal digit character for a value below ten.
pub open spec fn dec_char_of(d: nat) -> char {
    if d == 0 {
        '0'
    } else if d == 1 {
        '1'
    } else if d == 2 {
        '2'
    } else if d == 3 {
        '3'
    } else if d == 4 {
        '4'
    } else if d == 5 {
        '5'
    } else if d == 6 {
        '6'
    } else if d == 7 {
        '7'
    } else if d == 8 {
        '8'
    } else {
        '9'
    }
}

/// The decimal rendering of an integer, most significant digit first,
/// no leading zeroes.
pub open spec fn dec_seq(v: nat) -> Seq<char>
    decreases v,
{
    if v < 10 {
        seq![dec_char_of(v)]
    } else {
        dec_seq(v / 10) + seq![dec_char_of(v % 10)]
    }
}

fn dec_digit_str(d: u64) -> (r: &'static str)
    requires
        d < 10,
    ensures
        r@.len() == 1,
        r@[0] == dec_char_of(d as nat),
{
    proof {
        reveal_strlit("0");
        reveal_strlit("1");
        reveal_strlit("2");
        reveal_strlit("3");
        reveal_strlit("4");
        reveal_strlit("5");
        reveal_strlit("6");
        reveal_strlit("7");
        reveal_strlit("8");
        reveal_strlit("9");
    }
    if d == 0 {
        "0"
    } else if d == 1 {
        "1"
    } else if d == 2 {
        "2"
    } else if d == 3 {
        "3"
    } else if d == 4 {
        "4"
    } else if d == 5 {
        "5"
    } else if d == 6 {
        "6"
    } else if d == 7 {
        "7"
    } else if d == 8 {
        "8"
    } else {
        "9"
    }
}

/// The encoding of a string: its length, then its characters verbatim.
pub open spec fn ser_str(t: Seq<char>) -> Seq<char> {
    ser_u64(t.len()) + t
}

/// The encoding of an optional string: a tag, then the string if present.
pub open spec fn ser_opt_str(o: Option<Seq<char>>) -> Seq<char> {
    match o {
        Option::None => seq!['N'],
        Option::Some(t) => seq!['S'] + ser_str(t),
    }
}

/// The encoding of an optional timestamp: a tag, then its bit pattern.
pub open spec fn ser_opt_i64(o: Option<i64>) -> Seq<char> {
    match o {
        Option::None => seq!['N'],
        Option::Some(x) => seq!['I'] + ser_u64((x as u64) as nat),
    }
}

/// The encoding of a credential payload: its four fields in order.
pub open spec fn ser_token(t: crate::index::TokenInfoView) -> Seq<char> {
    ser_opt_str(t.access_token) + (ser_opt_str(t.refresh_token) + (ser_opt_i64(t.expires_at)
        + ser_opt_str(t.id_token)))
}

/// The encodings of a run of scope strings, in order.
pub open spec fn ser_scopes(ss: Seq<Seq<char>>) -> Seq<char>
    decreases ss.len(),
{
    if ss.len() == 0 {
        Seq::empty()
    } else {
        ser_str(ss[0]) + ser_scopes(ss.drop_first())
    }
}

/// The encoding of one record: scope count, scopes, then the payload.
/// The fingerprint is never part of the encoding; it is recomputed from
/// the scopes when the record is read back.
pub open spec fn ser_record(scopes: Seq<Seq<char>>, token: crate::index::TokenInfoView) -> Seq<
    char,
> {
    ser_u64(scopes.len()) + (ser_scopes(scopes) + ser_token(token))
}

/// The encodings of a run of records, in order.
pub open spec fn ser_records(es: Seq<(Seq<Seq<char>>, crate::index::TokenInfoView)>) -> Seq<char>
    decreases es.len(),
{
    if es.len() == 0 {
        Seq::empty()
    } else {
        ser_record(es[0].0, es[0].1) + ser_records(es.drop_first())
    }
}

/// The encoding of a whole index: record count, then the records.
pub open spec fn ser_index(es: Seq<(Seq<Seq<char>>, crate::index::TokenInfoView)>) -> Seq<char> {
    ser_u64(es.len()) + ser_records(es)
}

/// A string is encodable: its length fits the fixed-width length field.
pub open spec fn str_ok(t: Seq<char>) -> bool {
    t.len() < pow16(16)
}

pub open spec fn opt_str_ok(o: Option<Seq<char>>) -> bool {
    o matches Some(t) ==> str_ok(t)
}

pub open spec fn token_ok(t: crate::index::TokenInfoView) -> bool {
    &&& opt_str_ok(t.access_token)
    &&& opt_str_ok(t.refresh_token)
    &&& opt_str_ok(t.id_token)
}

pub open spec fn record_ok(scopes: Seq<Seq<char>>, token: crate::index::TokenInfoView) -> bool {
    &&& scopes.len() < pow16(16)
    &&& forall|i: int| 0 <= i < scopes.len() ==> str_ok(#[trigger] scopes[i])
    &&& token_ok(token)
}

pub open spec fn entries_ok(es: Seq<(Seq<Seq<char>>, crate::index::TokenInfoView)>) -> bool {
    &&& es.len() < pow16(16)
    &&& forall|i: int| 0 <= i < es.len() ==> record_ok((#[trigger] es[i]).0, es[i].1)
}

/// Appending one scope extends the run's encoding at its end.
proof fn lemma_ser_scopes_push(ss: Seq<Seq<char>>, x: Seq<char>)
    ensures
        ser_scopes(ss.push(x)) == ser_scopes(ss) + ser_str(x),
    decreases ss.len(),
{
    if ss.len() == 0 {
        reveal_with_fuel(ser_scopes, 2);
        assert(ss.push(x).drop_first() =~= Seq::<Seq<char>>::empty());
        assert(ss.push(x)[0] == x);
        assert(ser_scopes(ss.push(x)) =~= ser_scopes(ss) + ser_str(x));
    } else {
        assert(ss.push(x).drop_first() =~= ss.drop_first().push(x));
        lemma_ser_scopes_push(ss.drop_first(), x);
        assert(ser_scopes(ss.push(x)) == ser_str(ss[0]) + ser_scopes(ss.drop_first().push(x)));
        assert((ser_str(ss[0]) + ser_scopes(ss.drop_first())) + ser_str(x) =~= ser_str(ss[0]) + (
        ser_scopes(ss.drop_first()) + ser_str(x)));
    }
}

/// Appending one record extends the run's encoding at its end.
pub proof fn lemma_ser_records_push(
    es: Seq<(Seq<Seq<char>>, crate::index::TokenInfoView)>,
    x: (Seq<Seq<char>>, crate::index::TokenInfoView),
)
    ensures
        ser_records(es.push(x)) == ser_records(es) + ser_record(x.0, x.1),
    decreases es.len(),
{
    if es.len() == 0 {
        reveal_with_fuel(ser_records, 2);
        assert(es.push(x).drop_first() =~= Seq::<(Seq<Seq<char>>,
        crate::index::TokenInfoView)>::empty());
        assert(es.push(x)[0] == x);
        assert(ser_records(es.push(x)) =~= ser_records(es) + ser_record(x.0, x.1));
    } else {
        assert(es.push(x).drop_first() =~= es.drop_first().push(x));
        lemma_ser_records_push(es.drop_first(), x);
        assert(ser_records(es.push(x)) == ser_record(es[0].0, es[0].1) + ser_records(
            es.drop_first().push(x),
        ));
        assert((ser_record(es[0].0, es[0].1) + ser_records(es.drop_first())) + ser_record(x.0, x.1)
            =~= ser_record(es[0].0, es[0].1) + (ser_records(es.drop_first()) + ser_record(
            x.0,
            x.1,
        )));
    }
}

/// Two concatenations are equal and their first parts have one length:
/// then the parts agree pairwise.
proof fn lemma_concat_eq(x1: Seq<char>, y1: Seq<char>, x2: Seq<char>, y2: Seq<char>)
    requires
        x1 + y1 == x2 + y2,
        x1.len() == x2.len(),
    ensures
        x1 == x2,
        y1 == y2,
{
    assert forall|j: int| 0 <= j < x1.len() implies x1[j] == x2[j] by {
        assert((x1 + y1)[j] == x1[j]);
        assert((x2 + y2)[j] == x2[j]);
    }
    assert(x1 =~= x2);
    assert((x1 + y1).len() == x1.len() + y1.len());
    assert((x2 + y2).len() == x2.len() + y2.len());
    assert((x1 + y1).len() == (x2 + y2).len());
    assert(y1.len() == y2.len());
    assert forall|j: int| 0 <= j < y1.len() implies y1[j] == y2[j] by {
        assert((x1 + y1)[x1.len() + j] == y1[j]);
        assert((x2 + y2)[x2.len() + j] == y2[j]);
    }
    assert(y1 =~= y2);
}

/// A fixed-width digit run determines its value.
proof fn lemma_hex_seq_inj(a: nat, b: nat, k: nat)
    requires
        a < pow16(k),
        b < pow16(k),
        hex_seq(a, k) == hex_seq(b, k),
    ensures
        a == b,
    decreases k,
{
    if k > 0 {
        assert(hex_seq(a, k)[0] == hex_char_of(a % 16));
        assert(hex_seq(b, k)[0] == hex_char_of(b % 16));
        lemma_hex_char_injective(a % 16, b % 16);
        lemma_hex_seq_len(a / 16, (k - 1) as nat);
        lemma_hex_seq_len(b / 16, (k - 1) as nat);
        lemma_concat_eq(
            seq![hex_char_of(a % 16)],
            hex_seq(a / 16, (k - 1) as nat),
            seq![hex_char_of(b % 16)],
            hex_seq(b / 16, (k - 1) as nat),
        );
        assert(a / 16 < pow16((k - 1) as nat));
        assert(b / 16 < pow16((k - 1) as nat));
        lemma_hex_seq_inj(a / 16, b / 16, (k - 1) as nat);
        assert(a == 16 * (a / 16) + a % 16);
        assert(b == 16 * (b / 16) + b % 16);
    }
}

/// A string encoding standing at the head of a character sequence
/// determines the string and the rest.
proof fn lemma_psd_str(a: Seq<char>, b: Seq<char>, r1: Seq<char>, r2: Seq<char>)
    requires
        str_ok(a),
        str_ok(b),
        ser_str(a) + r1 == ser_str(b) + r2,
    ensures
        a == b,
        r1 == r2,
{
    lemma_hex_seq_len(a.len(), 16);
    lemma_hex_seq_len(b.len(), 16);
    assert((ser_u64(a.len()) + a) + r1 =~= ser_u64(a.len()) + (a + r1));
    assert((ser_u64(b.len()) + b) + r2 =~= ser_u64(b.len()) + (b + r2));
    lemma_concat_eq(ser_u64(a.len()), a + r1, ser_u64(b.len()), b + r2);
    lemma_hex_seq_inj(a.len(), b.len(), 16);
    lemma_concat_eq(a, r1, b, r2);
}

/// An optional-string encoding at the head determines the value and the
/// rest: the tag character separates the two shapes.
proof fn lemma_psd_opt_str(
    a: Option<Seq<char>>,
    b: Option<Seq<char>>,
    r1: Seq<char>,
    r2: Seq<char>,
)
    requires
        opt_str_ok(a),
        opt_str_ok(b),
        ser_opt_str(a) + r1 == ser_opt_str(b) + r2,
    ensures
        a == b,
        r1 == r2,
{
    match (a, b) {
        (Option::None, Option::None) => {
            lemma_concat_eq(seq!['N'], r1, seq!['N'], r2);
        },
        (Option::None, Option::Some(t2)) => {
            assert((ser_opt_str(a) + r1)[0] == 'N');
            assert((seq!['S'] + ser_str(t2)) + r2 =~= seq!['S'] + (ser_str(t2) + r2));
            assert((ser_opt_str(b) + r2)[0] == 'S');
        },
        (Option::Some(t1), Option::None) => {
            assert((seq!['S'] + ser_str(t1)) + r1 =~= seq!['S'] + (ser_str(t1) + r1));
            assert((ser_opt_str(a) + r1)[0] == 'S');
            assert((ser_opt_str(b) + r2)[0] == 'N');
        },
        (Option::Some(t1), Option::Some(t2)) => {
            assert((seq!['S'] + ser_str(t1)) + r1 =~= seq!['S'] + (ser_str(t1) + r1));
            assert((seq!['S'] + ser_str(t2)) + r2 =~= seq!['S'] + (ser_str(t2) + r2));
            lemma_concat_eq(seq!['S'], ser_str(t1) + r1, seq!['S'], ser_str(t2) + r2);
            lemma_psd_str(t1, t2, r1, r2);
        },
    }
}

/// An optional-timestamp encoding at the head determines the value and
/// the rest.
proof fn lemma_psd_opt_i64(a: Option<i64>, b: Option<i64>, r1: Seq<char>, r2: Seq<char>)
    requires
        ser_opt_i64(a) + r1 == ser_opt_i64(b) + r2,
    ensures
        a == b,
        r1 == r2,
{
    lemma_pow16_values();
    match (a, b) {
        (Option::None, Option::None) => {
            lemma_concat_eq(seq!['N'], r1, seq!['N'], r2);
        },
        (Option::None, Option::Some(x2)) => {
            assert((ser_opt_i64(a) + r1)[0] == 'N');
            assert((seq!['I'] + ser_u64((x2 as u64) as nat)) + r2 =~= seq!['I'] + (ser_u64(
                (x2 as u64) as nat,
            ) + r2));
            assert((ser_opt_i64(b) + r2)[0] == 'I');
        },
        (Option::Some(x1), Option::None) => {
            assert((seq!['I'] + ser_u64((x1 as u64) as nat)) + r1 =~= seq!['I'] + (ser_u64(
                (x1 as u64) as nat,
            ) + r1));
            assert((ser_opt_i64(a) + r1)[0] == 'I');
            assert((ser_opt_i64(b) + r2)[0] == 'N');
        },
        (Option::Some(x1), Option::Some(x2)) => {
            assert((seq!['I'] + ser_u64((x1 as u64) as nat)) + r1 =~= seq!['I'] + (ser_u64(
                (x1 as u64) as nat,
            ) + r1));
            assert((seq!['I'] + ser_u64((x2 as u64) as nat)) + r2 =~= seq!['I'] + (ser_u64(
                (x2 as u64) as nat,
            ) + r2));
            lemma_concat_eq(
                seq!['I'],
                ser_u64((x1 as u64) as nat) + r1,
                seq!['I'],
                ser_u64((x2 as u64) as nat) + r2,
            );
            lemma_hex_seq_len((x1 as u64) as nat, 16);
            lemma_hex_seq_len((x2 as u64) as nat, 16);
            lemma_concat_eq(
                ser_u64((x1 as u64) as nat),
                r1,
                ser_u64((x2 as u64) as nat),
                r2,
            );
            lemma_hex_seq_inj((x1 as u64) as nat, (x2 as u64) as nat, 16);
            assert(x1 as u64 == x2 as u64 ==> x1 == x2) by (bit_vector);
        },
    }
}

/// A payload encoding at the head determines the payload and the rest.
proof fn lemma_psd_token(
    t1: crate::index::TokenInfoView,
    t2: crate::index::TokenInfoView,
    r1: Seq<char>,
    r2: Seq<char>,
)
    requires
        token_ok(t1),
        token_ok(t2),
        ser_token(t1) + r1 == ser_token(t2) + r2,
    ensures
        t1 == t2,
        r1 == r2,
{
    let x1 = ser_opt_str(t1.refresh_token) + (ser_opt_i64(t1.expires_at) + ser_opt_str(
        t1.id_token,
    ));
    let x2 = ser_opt_str(t2.refresh_token) + (ser_opt_i64(t2.expires_at) + ser_opt_str(
        t2.id_token,
    ));
    assert((ser_opt_str(t1.access_token) + x1) + r1 =~= ser_opt_str(t1.access_token) + (x1 + r1));
    assert((ser_opt_str(t2.access_token) + x2) + r2 =~= ser_opt_str(t2.access_token) + (x2 + r2));
    lemma_psd_opt_str(t1.access_token, t2.access_token, x1 + r1, x2 + r2);
    let y1 = ser_opt_i64(t1.expires_at) + ser_opt_str(t1.id_token);
    let y2 = ser_opt_i64(t2.expires_at) + ser_opt_str(t2.id_token);
    assert(x1 + r1 =~= ser_opt_str(t1.refresh_token) + (y1 + r1));
    assert(x2 + r2 =~= ser_opt_str(t2.refresh_token) + (y2 + r2));
    lemma_psd_opt_str(t1.refresh_token, t2.refresh_token, y1 + r1, y2 + r2);
    assert(y1 + r1 =~= ser_opt_i64(t1.expires_at) + (ser_opt_str(t1.id_token) + r1));
    assert(y2 + r2 =~= ser_opt_i64(t2.expires_at) + (ser_opt_str(t2.id_token) + r2));
    lemma_psd_opt_i64(t1.expires_at, t2.expires_at, ser_opt_str(t1.id_token) + r1, ser_opt_str(
        t2.id_token,
    ) + r2);
    lemma_psd_opt_str(t1.id_token, t2.id_token, r1, r2);
}

/// Equally long runs of string encodings at the head determine the
/// strings and the rest.
proof fn lemma_psd_scopes(s1: Seq<Seq<char>>, s2: Seq<Seq<char>>, r1: Seq<char>, r2: Seq<char>)
    requires
        s1.len() == s2.len(),
        forall|i: int| 0 <= i < s1.len() ==> str_ok(#[trigger] s1[i]),
        forall|i: int| 0 <= i < s2.len() ==> str_ok(#[trigger] s2[i]),
        ser_scopes(s1) + r1 == ser_scopes(s2) + r2,
    ensures
        s1 == s2,
        r1 == r2,
    decreases s1.len(),
{
    if s1.len() == 0 {
        assert(Seq::<char>::empty() + r1 =~= r1);
        assert(Seq::<char>::empty() + r2 =~= r2);
        assert(s1 =~= s2);
    } else {
        assert((ser_str(s1[0]) + ser_scopes(s1.drop_first())) + r1 =~= ser_str(s1[0]) + (
        ser_scopes(s1.drop_first()) + r1));
        assert((ser_str(s2[0]) + ser_scopes(s2.drop_first())) + r2 =~= ser_str(s2[0]) + (
        ser_scopes(s2.drop_first()) + r2));
        lemma_psd_str(s1[0], s2[0], ser_scopes(s1.drop_first()) + r1, ser_scopes(s2.drop_first())
            + r2);
        assert(forall|i: int|
            0 <= i < s1.drop_first().len() ==> str_ok(#[trigger] s1.drop_first()[i]));
        assert(forall|i: int|
            0 <= i < s2.drop_first().len() ==> str_ok(#[trigger] s2.drop_first()[i]));
        lemma_psd_scopes(s1.drop_first(), s2.drop_first(), r1, r2);
        assert forall|j: int| 0 <= j < s1.len() implies s1[j] == s2[j] by {
            if j > 0 {
                assert(s1.drop_first()[j - 1] == s2.drop_first()[j - 1]);
            }
        }
        assert(s1 =~= s2);
    }
}

/// A record encoding at the head determines the record and the rest.
proof fn lemma_psd_record(
    sc1: Seq<Seq<char>>,
    tk1: crate::index::TokenInfoView,
    sc2: Seq<Seq<char>>,
    tk2: crate::index::TokenInfoView,
    r1: Seq<char>,
    r2: Seq<char>,
)
    requires
        record_ok(sc1, tk1),
        record_ok(sc2, tk2),
        ser_record(sc1, tk1) + r1 == ser_record(sc2, tk2) + r2,
    ensures
        sc1 == sc2,
        tk1 == tk2,
        r1 == r2,
{
    lemma_hex_seq_len(sc1.len(), 16);
    lemma_hex_seq_len(sc2.len(), 16);
    let x1 = ser_scopes(sc1) + ser_token(tk1);
    let x2 = ser_scopes(sc2) + ser_token(tk2);
    assert((ser_u64(sc1.len()) + x1) + r1 =~= ser_u64(sc1.len()) + (x1 + r1));
    assert((ser_u64(sc2.len()) + x2) + r2 =~= ser_u64(sc2.len()) + (x2 + r2));
    lemma_concat_eq(ser_u64(sc1.len()), x1 + r1, ser_u64(sc2.len()), x2 + r2);
    lemma_hex_seq_inj(sc1.len(), sc2.len(), 16);
    assert(x1 + r1 =~= ser_scopes(sc1) + (ser_token(tk1) + r1));
    assert(x2 + r2 =~= ser_scopes(sc2) + (ser_token(tk2) + r2));
    lemma_psd_scopes(sc1, sc2, ser_token(tk1) + r1, ser_token(tk2) + r2);
    lemma_psd_token(tk1, tk2, r1, r2);
}

/// Equally long runs of record encodings determine the records and the
/// rest.
proof fn lemma_psd_records(
    e1: Seq<(Seq<Seq<char>>, crate::index::TokenInfoView)>,
    e2: Seq<(Seq<Seq<char>>, crate::index::TokenInfoView)>,
    r1: Seq<char>,
    r2: Seq<char>,
)
    requires
        e1.len() == e2.len(),
        forall|i: int| 0 <= i < e1.len() ==> record_ok((#[trigger] e1[i]).0, e1[i].1),
        forall|i: int| 0 <= i < e2.len() ==> record_ok((#[trigger] e2[i]).0, e2[i].1),
        ser_records(e1) + r1 == ser_records(e2) + r2,
    ensures
        e1 == e2,
        r1 == r2,
    decreases e1.len(),
{
    if e1.len() == 0 {
        assert(Seq::<char>::empty() + r1 =~= r1);
        assert(Seq::<char>::empty() + r2 =~= r2);
        assert(e1 =~= e2);
    } else {
        assert((ser_record(e1[0].0, e1[0].1) + ser_records(e1.drop_first())) + r1 =~= ser_record(
            e1[0].0,
            e1[0].1,
        ) + (ser_records(e1.drop_first()) + r1));
        assert((ser_record(e2[0].0, e2[0].1) + ser_records(e2.drop_first())) + r2 =~= ser_record(
            e2[0].0,
            e2[0].1,
        ) + (ser_records(e2.drop_first()) + r2));
        lemma_psd_record(
            e1[0].0,
            e1[0].1,
            e2[0].0,
            e2[0].1,
            ser_records(e1.drop_first()) + r1,
            ser_records(e2.drop_first()) + r2,
        );
        assert(forall|i: int|
            0 <= i < e1.drop_first().len() ==> record_ok(
                (#[trigger] e1.drop_first()[i]).0,
                e1.drop_first()[i].1,
            ));
        assert(forall|i: int|
            0 <= i < e2.drop_first().len() ==> record_ok(
                (#[trigger] e2.drop_first()[i]).0,
                e2.drop_first()[i].1,
            ));
        lemma_psd_records(e1.drop_first(), e2.drop_first(), r1, r2);
        assert forall|j: int| 0 <= j < e1.len() implies e1[j] == e2[j] by {
            if j > 0 {
                assert(e1.drop_first()[j - 1] == e2.drop_first()[j - 1]);
            }
        }
        assert(e1 =~= e2);
    }
}

/// A character sequence from `pos` on splits at any midpoint.
proof fn lemma_skip_decompose(s: Seq<char>, pos: int, end: int)
    requires
        0 <= pos <= end <= s.len(),
    ensures
        s.skip(pos) == s.subrange(pos, end) + s.skip(end),
{
    assert(s.skip(pos) =~= s.subrange(pos, end) + s.skip(end));
}

/// If the characters from `pos` encode `a` then `b`, each part stands in
/// its own range.
proof fn lemma_split_prefix(s: Seq<char>, pos: int, a: Seq<char>, b: Seq<char>)
    requires
        0 <= pos,
        pos + a.len() + b.len() <= s.len(),
        s.subrange(pos, pos + a.len() + b.len()) == a + b,
    ensures
        s.subrange(pos, pos + a.len()) == a,
        s.subrange(pos + a.len(), pos + a.len() + b.len()) == b,
{
    let whole = s.subrange(pos, pos + a.len() + b.len());
    assert forall|j: int| 0 <= j < a.len() implies s.subrange(pos, pos + a.len())[j] == a[j] by {
        assert(whole[j] == s[pos + j]);
        assert((a + b)[j] == a[j]);
    }
    assert(s.subrange(pos, pos + a.len()) =~= a);
    assert forall|j: int|
        0 <= j < b.len() implies s.subrange(pos + a.len(), pos + a.len() + b.len())[j] == b[j] by {
        assert(whole[a.len() + j] == s[pos + a.len() + j]);
        assert((a + b)[a.len() + j] == b[j]);
    }
    assert(s.subrange(pos + a.len(), pos + a.len() + b.len()) =~= b);
}

/// Append the encoding of a string.
fn emit_str(out: &mut String, t: &str)
    ensures
        final(out)@ == old(out)@ + ser_str(t@),
        str_ok(t@),
{
    let n = t.unicode_len();
    emit_u64(out, n as u64);
    out.append(t);
    proof {
        lemma_pow16_values();
        assert(out@ =~= old(out)@ + ser_str(t@));
    }
}

/// Append the encoding of an optional string.
fn emit_opt_str(out: &mut String, o: &Option<String>)
    ensures
        final(out)@ == old(out)@ + ser_opt_str(opt_str_view(*o)),
        opt_str_ok(opt_str_view(*o)),
{
    match o {
        Option::None => {
            proof {
                reveal_strlit("N");
            }
            out.append("N");
            proof {
                assert(out@ =~= old(out)@ + ser_opt_str(opt_str_view(Option::None)));
            }
        },
        Option::Some(t) => {
            proof {
                reveal_strlit("S");
            }
            out.append("S");
            emit_str(out, t.as_str());
            proof {
                assert(out@ =~= old(out)@ + ser_opt_str(opt_str_view(Option::Some(*t))));
            }
        },
    }
}

/// Append the encoding of an optional timestamp.
fn emit_opt_i64(out: &mut String, o: &Option<i64>)
    ensures
        final(out)@ == old(out)@ + ser_opt_i64(*o),
{
    match o {
        Option::None => {
            proof {
                reveal_strlit("N");
            }
            out.append("N");
            proof {
                assert(out@ =~= old(out)@ + ser_opt_i64(Option::None));
            }
        },
        Option::Some(x) => {
            proof {
                reveal_strlit("I");
            }
            out.append("I");
            emit_u64(out, *x as u64);
            proof {
                assert(out@ =~= old(out)@ + ser_opt_i64(Option::Some(*x)));
            }
        },
    }
}

/// Append the encoding of a credential payload.
fn emit_token(out: &mut String, t: &TokenInfo)
    ensures
        final(out)@ == old(out)@ + ser_token(t@),
        token_ok(t@),
{
    emit_opt_str(out, &t.access_token);
    emit_opt_str(out, &t.refresh_token);
    emit_opt_i64(out, &t.expires_at);
    emit_opt_str(out, &t.id_token);
    proof {
        assert(out@ =~= old(out)@ + ser_token(t@));
    }
}

/// Append the encoding of one record: scope count, scopes, payload.
pub fn emit_record(out: &mut String, scopes: &Vec<String>, token: &TokenInfo)
    ensures
        final(out)@ == old(out)@ + ser_record(scope_views(scopes@), token@),
        record_ok(scope_views(scopes@), token@),
{
    let ghost views = scope_views(scopes@);
    let n = scopes.len();
    emit_u64(out, n as u64);
    for i in 0..n
        invariant
            n == scopes@.len(),
            views == scope_views(scopes@),
            out@ == old(out)@ + ser_u64(views.len()) + ser_scopes(views.take(i as int)),
            forall|k: int| 0 <= k < i ==> str_ok(#[trigger] views[k]),
    {
        emit_str(out, scopes[i].as_str());
        proof {
            assert(views.take(i + 1) =~= views.take(i as int).push(views[i as int]));
            lemma_ser_scopes_push(views.take(i as int), views[i as int]);
            assert(out@ =~= old(out)@ + ser_u64(views.len()) + ser_scopes(views.take(i + 1)));
        }
    }
    emit_token(out, token);
    proof {
        lemma_pow16_values();
        assert(views.take(n as int) =~= views);
        assert(out@ =~= old(out)@ + ser_record(views, token@));
    }
}

/// The decimal string form of an integer.
pub fn u64_to_dec(v: u64) -> (r: String)
    ensures
        r@ == dec_seq(v as nat),
    decreases v,
{
    if v < 10 {
        let mut out = String::new();
        out.append(dec_digit_str(v));
        proof {
            assert(out@ =~= dec_seq(v as nat));
        }
        out
    } else {
        let mut out = u64_to_dec(v / 10);
        out.append(dec_digit_str(v % 10));
        proof {
            assert(out@ =~= dec_seq(v as nat));
        }
        out
    }
}

} // verus!
