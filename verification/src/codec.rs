//! The coordination message formats, byte for byte: compact JSON with keys
//! in alphabetical order, exactly as the operator writes them on the bus.
//! Each decoder accepts precisely the texts its encoder produces, so a
//! decoded message pins the whole input down.

use vstd::prelude::*;

use crate::partition::{GroupView, ShardGroup};
use crate::text::{
    all_digits, dec_digits, dec_val, is_digit, lemma_dec_digits_shape, lemma_dec_digits_unique,
    lemma_dec_val_of_digits, lemma_dec_val_take_monotone, push_dec_u32, push_dec_u64,
};

verus! {

/// A string may stand in a JSON text verbatim when it holds no quote, no
/// backslash and no control character.
pub open spec fn json_string_ok(s: Seq<char>) -> bool {
    forall|i: int| 0 <= i < s.len() ==> ' ' <= #[trigger] s[i] && s[i] != '"' && s[i] != '\\'
}

/// Whether `s` can stand in a JSON text verbatim.
pub fn check_json_string(s: &str) -> (r: bool)
    ensures
        r == json_string_ok(s@),
{
    let n = s.unicode_len();
    let mut i: usize = 0;
    while i < n
        invariant
            0 <= i <= n,
            n == s@.len(),
            forall|j: int|
                0 <= j < i ==> ' ' <= #[trigger] s@[j] && s@[j] != '"' && s@[j] != '\\',
        decreases n - i,
    {
        let c = s.get_char(i);
        if c < ' ' || c == '"' || c == '\\' {
            return false;
        }
        i = i + 1;
    }
    true
}

/// Whether the char at `i` is a decimal digit (false at the end of `s`).
fn is_digit_at(s: &str, i: usize) -> (b: bool)
    requires
        i < s@.len(),
    ensures
        b == is_digit(s@[i as int]),
{
    let c = s.get_char(i);
    '0' <= c && c <= '9'
}

/// Matches the literal `lit` at position `i` of `s`.
pub(crate) fn expect_lit(s: &str, i: usize, lit: &str) -> (r: Option<usize>)
    requires
        i <= s@.len(),
    ensures
        match r {
            Some(j) => i + lit@.len() == j <= s@.len() && s@.subrange(i as int, j as int)
                == lit@,
            None => !(i + lit@.len() <= s@.len() && s@.subrange(
                i as int,
                i + lit@.len(),
            ) == lit@),
        },
{
    let n = s.unicode_len();
    let m = lit.unicode_len();
    if m > n - i {
        proof {
            assert(!(i + lit@.len() <= s@.len()));
        }
        return None;
    }
    let mut j: usize = 0;
    while j < m
        invariant
            0 <= j <= m,
            i + m <= n,
            n == s@.len(),
            m == lit@.len(),
            forall|k: int| 0 <= k < j ==> s@[i + k] == lit@[k],
        decreases m - j,
    {
        if s.get_char(i + j) != lit.get_char(j) {
            proof {
                if i + lit@.len() <= s@.len() && s@.subrange(i as int, i + lit@.len()) == lit@ {
                    assert(s@.subrange(i as int, i + lit@.len())[j as int] == s@[i + j]);
                    assert(false);
                }
            }
            return None;
        }
        j = j + 1;
    }
    proof {
        assert(s@.subrange(i as int, i + lit@.len()) =~= lit@);
    }
    Some(i + m)
}

/// Parses a canonical decimal number at position `i`: digits with no
/// leading zero, ending at the first non-digit, value at most `u32::MAX`.
fn parse_number(s: &str, i: usize) -> (r: Option<(u32, usize)>)
    requires
        i <= s@.len(),
    ensures
        match r {
            Some(p) => {
                &&& i < p.1 <= s@.len()
                &&& s@.subrange(i as int, p.1 as int) == dec_digits(p.0 as nat)
                &&& (p.1 < s@.len() ==> !is_digit(s@[p.1 as int]))
            },
            None => true,
        },
        forall|c: nat, j: int|
            c <= u32::MAX && i + dec_digits(c).len() == j <= s@.len() && s@.subrange(
                i as int,
                j,
            ) == dec_digits(c) && (j == s@.len() || !is_digit(s@[j])) ==> r == Some(
                (c as u32, j as usize),
            ),
{
    let n = s.unicode_len();
    let ghost sv = s@;
    // find the end of the digit run
    let mut e: usize = i;
    while e < n && is_digit_at(s, e)
        invariant
            i <= e <= n,
            n == sv.len(),
            sv == s@,
            forall|k: int| i <= k < e ==> is_digit(#[trigger] sv[k]),
        decreases n - e,
    {
        e = e + 1;
    }
    proof {
        assert(e < n ==> !is_digit(sv[e as int]));
    }
    if e == i {
        // no digits at all: no canonical number can start here
        proof {
            assert forall|c: nat, j: int|
                c <= u32::MAX && i + dec_digits(c).len() == j <= sv.len() && sv.subrange(
                    i as int,
                    j,
                ) == dec_digits(c) && (j == sv.len() || !is_digit(sv[j])) implies false by {
                lemma_dec_digits_shape(c);
                assert(sv[i as int] == dec_digits(c)[0]);
            }
        }
        return None;
    }
    if e > i + 1 && s.get_char(i) == '0' {
        // a leading zero is not canonical
        proof {
            assert forall|c: nat, j: int|
                c <= u32::MAX && i + dec_digits(c).len() == j <= sv.len() && sv.subrange(
                    i as int,
                    j,
                ) == dec_digits(c) && (j == sv.len() || !is_digit(sv[j])) implies false by {
                lemma_dec_digits_shape(c);
                assert(dec_digits(c)[0] == sv[i as int]);
                if c >= 1 {
                } else {
                    assert(dec_digits(c).len() == 1);
                    assert(j == i + 1);
                    assert(is_digit(sv[j]));
                }
            }
        }
        return None;
    }
    // evaluate the run, watching for overflow
    let ghost run = sv.subrange(i as int, e as int);
    let mut acc: u64 = 0;
    let mut k: usize = i;
    while k < e
        invariant
            i <= k <= e <= n,
            n == sv.len(),
            sv == s@,
            forall|m: int| i <= m < e ==> is_digit(#[trigger] sv[m]),
            run == sv.subrange(i as int, e as int),
            e < n ==> !is_digit(sv[e as int]),
            e > i + 1 ==> sv[i as int] != '0',
            acc <= u32::MAX,
            acc as nat == dec_val(run.take(k - i)),
        decreases e - k,
    {
        let c = s.get_char(k);
        proof {
            assert(is_digit(sv[k as int]));
            assert(run[k - i] == sv[k as int]);
        }
        let d: u64 = (c as u32 as u64) - ('0' as u32 as u64);
        acc = acc * 10 + d;
        proof {
            assert(run.take(k - i + 1).drop_last() =~= run.take(k - i));
            assert(run.take(k - i + 1).last() == run[k - i]);
        }
        k = k + 1;
        if acc > u32::MAX as u64 {
            // the run evaluates past u32::MAX, so no admissible number fits
            proof {
                assert(all_digits(run));
                lemma_dec_val_take_monotone(run, k - i);
                assert(dec_val(run) > u32::MAX);
                assert forall|c2: nat, j: int|
                    c2 <= u32::MAX && i + dec_digits(c2).len() == j <= sv.len() && sv.subrange(
                        i as int,
                        j,
                    ) == dec_digits(c2) && (j == sv.len() || !is_digit(sv[j])) implies false by {
                    lemma_dec_digits_shape(c2);
                    // the canonical digits must stop exactly at the run's end
                    assert forall|m: int| i <= m < j implies is_digit(#[trigger] sv[m]) by {
                        assert(sv[m] == dec_digits(c2)[m - i]);
                    }
                    assert(j <= e);
                    assert(j == e);
                    assert(sv.subrange(i as int, j) =~= run);
                    lemma_dec_val_of_digits(c2);
                }
            }
            return None;
        }
    }
    proof {
        assert(run.take(e - i) =~= run);
        assert(all_digits(run));
        assert(run.len() >= 1);
        assert(run[0] == sv[i as int]);
        lemma_dec_digits_unique(run);
        // completeness: any canonical number here is exactly this run
        assert forall|c2: nat, j: int|
            c2 <= u32::MAX && i + dec_digits(c2).len() == j <= sv.len() && sv.subrange(
                i as int,
                j,
            ) == dec_digits(c2) && (j == sv.len() || !is_digit(sv[j])) implies Some(
            (acc as u32, e as usize),
        ) == Some((c2 as u32, j as usize)) by {
            lemma_dec_digits_shape(c2);
            assert forall|m: int| i <= m < j implies is_digit(#[trigger] sv[m]) by {
                assert(sv[m] == dec_digits(c2)[m - i]);
            }
            assert(j <= e);
            assert(j == e);
            assert(sv.subrange(i as int, j) =~= run);
            lemma_dec_val_of_digits(c2);
        }
    }
    Some((acc as u32, e))
}

/// Scans a JSON string body starting at `i`, up to its closing quote.
fn parse_string(s: &str, i: usize) -> (r: Option<(String, usize)>)
    requires
        i <= s@.len(),
    ensures
        match r {
            Some(p) => {
                &&& i < p.1 <= s@.len()
                &&& json_string_ok(p.0@)
                &&& p.0@ == s@.subrange(i as int, p.1 - 1)
                &&& s@[p.1 - 1] == '"'
            },
            None => true,
        },
        forall|ts: Seq<char>, j: int|
            json_string_ok(ts) && i + ts.len() + 1 == j <= s@.len() && s@.subrange(
                i as int,
                j,
            ) == ts + seq!['"'] ==> (r matches Some(p) && p.0@ == ts && p.1 == j),
{
    let n = s.unicode_len();
    let ghost sv = s@;
    let mut e: usize = i;
    let mut state: u8 = 0;  // 0 scanning, 1 found the quote, 2 hit a bad char
    while state == 0 && e < n
        invariant
            i <= e <= n,
            n == sv.len(),
            sv == s@,
            forall|k: int|
                i <= k < e ==> ' ' <= #[trigger] sv[k] && sv[k] != '"' && sv[k] != '\\',
            state == 1 ==> e < n && sv[e as int] == '"',
            state == 2 ==> e < n && (sv[e as int] < ' ' || sv[e as int] == '\\'),
            state <= 2,
        decreases n - e, 2 - state,
    {
        let c = s.get_char(e);
        if c == '"' {
            state = 1;
        } else if c < ' ' || c == '\\' {
            state = 2;
        } else {
            e = e + 1;
        }
    }
    if state == 1 {
        let t = s.substring_char(i, e).to_owned();
        proof {
            assert(t@ == sv.subrange(i as int, e as int));
            assert forall|ts: Seq<char>, j: int|
                json_string_ok(ts) && i + ts.len() + 1 == j <= sv.len() && sv.subrange(
                    i as int,
                    j,
                ) == ts + seq!['"'] implies t@ == ts && e + 1 == j by {
                // the first quote at or after i is exactly at i + ts.len()
                assert forall|m: int| i <= m < j - 1 implies sv[m] != '"' by {
                    assert(sv.subrange(i as int, j)[m - i] == sv[m]);
                    assert((ts + seq!['"'])[m - i] == ts[m - i]);
                }
                assert(sv.subrange(i as int, j)[j - 1 - i] == sv[j - 1]);
                assert((ts + seq!['"'])[j - 1 - i] == '"');
                assert(sv[j - 1] == '"');
                if e < j - 1 {
                    assert(sv[e as int] != '"');
                } else if e > j - 1 {
                    assert(sv[j - 1] != '"');
                }
                assert(e == j - 1);
                assert(t@ =~= ts);
            }
        }
        return Some((t, e + 1));
    }
    // hit the end or an illegal character before any quote
    proof {
        assert forall|ts: Seq<char>, j: int|
            json_string_ok(ts) && i + ts.len() + 1 == j <= sv.len() && sv.subrange(
                i as int,
                j,
            ) == ts + seq!['"'] implies false by {
            assert forall|m: int| i <= m < j - 1 implies ' ' <= #[trigger] sv[m] && sv[m] != '"'
                && sv[m] != '\\' by {
                assert(sv.subrange(i as int, j)[m - i] == sv[m]);
                assert((ts + seq!['"'])[m - i] == ts[m - i]);
            }
            assert(sv.subrange(i as int, j)[j - 1 - i] == sv[j - 1]);
            assert((ts + seq!['"'])[j - 1 - i] == '"');
            assert(sv[j - 1] == '"');
            if state == 2 {
                // the bad char must lie inside the body or be the quote
                assert(e < j - 1 ==> false);
                assert(e == j - 1 ==> false);
                assert(e > j - 1);
                assert(forall|k: int| i <= k < e ==> #[trigger] sv[k] != '"');
            } else {
                assert(e == n);
                assert(j - 1 < n);
                assert(forall|k: int| i <= k < e ==> #[trigger] sv[k] != '"');
            }
        }
    }
    None
}

/// Five adjacent slices of a text, matched segment by segment, make up the
/// whole text.
proof fn lemma_join5(
    sv: Seq<char>,
    a: Seq<char>,
    b: Seq<char>,
    c: Seq<char>,
    d: Seq<char>,
    e: Seq<char>,
)
    requires
        sv.len() == a.len() + b.len() + c.len() + d.len() + e.len(),
        sv.subrange(0, a.len() as int) == a,
        sv.subrange(a.len() as int, a.len() as int + b.len()) == b,
        sv.subrange(a.len() as int + b.len(), a.len() as int + b.len() + c.len()) == c,
        sv.subrange(a.len() as int + b.len() + c.len(), a.len() as int + b.len() + c.len() + d.len()) == d,
        sv.subrange(a.len() as int + b.len() + c.len() + d.len(), sv.len() as int) == e,
    ensures
        sv == a + b + c + d + e,
{
    let la = a.len() as int;
    let lb = b.len() as int;
    let lc = c.len() as int;
    let ld = d.len() as int;
    assert forall|idx: int| 0 <= idx < sv.len() implies sv[idx] == (a + b + c + d + e)[idx] by {
        if idx < la {
            assert(sv.subrange(0, la)[idx] == sv[idx]);
        } else if idx < la + lb {
            assert(sv.subrange(la, la + lb)[idx - la] == sv[idx]);
        } else if idx < la + lb + lc {
            assert(sv.subrange(la + lb, la + lb + lc)[idx - la - lb] == sv[idx]);
        } else if idx < la + lb + lc + ld {
            assert(sv.subrange(la + lb + lc, la + lb + lc + ld)[idx - la - lb - lc] == sv[idx]);
        } else {
            assert(sv.subrange(la + lb + lc + ld, sv.len() as int)[idx - la - lb - lc - ld]
                == sv[idx]);
        }
    }
    assert(sv =~= a + b + c + d + e);
}

/// A text made of five segments slices back into them.
proof fn lemma_split5(
    sv: Seq<char>,
    a: Seq<char>,
    b: Seq<char>,
    c: Seq<char>,
    d: Seq<char>,
    e: Seq<char>,
)
    requires
        sv == a + b + c + d + e,
    ensures
        sv.len() == a.len() + b.len() + c.len() + d.len() + e.len(),
        sv.subrange(0, a.len() as int) == a,
        sv.subrange(a.len() as int, a.len() as int + b.len()) == b,
        sv.subrange(a.len() as int + b.len(), a.len() as int + b.len() + c.len()) == c,
        sv.subrange(a.len() as int + b.len() + c.len(), a.len() as int + b.len() + c.len() + d.len()) == d,
        sv.subrange(a.len() as int + b.len() + c.len() + d.len(), sv.len() as int) == e,
{
    let la = a.len() as int;
    let lb = b.len() as int;
    let lc = c.len() as int;
    let ld = d.len() as int;
    assert(sv.subrange(0, la) =~= a);
    assert(sv.subrange(la, la + lb) =~= b);
    assert(sv.subrange(la + lb, la + lb + lc) =~= c);
    assert(sv.subrange(la + lb + lc, la + lb + lc + ld) =~= d);
    assert(sv.subrange(la + lb + lc + ld, sv.len() as int) =~= e);
}

/// An operator-to-worker reshard broadcast.
pub struct ReshardMessage {
    pub new_shard_count: u32,
    pub timestamp: String,
}

/// The exact text of a reshard broadcast.
pub open spec fn reshard_text(count: nat, ts: Seq<char>) -> Seq<char> {
    "{\"event\":\"reshard\",\"new_shard_count\":"@ + dec_digits(count) + ",\"timestamp\":\""@ + (ts
        + seq!['"']) + "}"@
}

/// Writes the reshard broadcast for `count` shards; refuses a timestamp
/// that cannot stand in a JSON text verbatim.
pub fn encode_reshard(count: u32, timestamp: &str) -> (r: Option<String>)
    ensures
        json_string_ok(timestamp@) ==> (r matches Some(s) && s@ == reshard_text(
            count as nat,
            timestamp@,
        )),
        !json_string_ok(timestamp@) ==> r is None,
{
    if !check_json_string(timestamp) {
        return None;
    }
    let mut out = String::from_str("{\"event\":\"reshard\",\"new_shard_count\":");
    push_dec_u32(&mut out, count);
    out.append(",\"timestamp\":\"");
    out.append(timestamp);
    out.append("\"");
    out.append("}");
    proof {
        reveal_strlit("\"");
        assert("\""@ =~= seq!['"']);
        assert(out@ =~= reshard_text(count as nat, timestamp@));
    }
    Some(out)
}

/// Reads a reshard broadcast back; accepts exactly the texts
/// `encode_reshard` writes and nothing else.
pub fn decode_reshard(s: &str) -> (r: Option<ReshardMessage>)
    ensures
        (r matches Some(m) ==> json_string_ok(m.timestamp@) && s@ == reshard_text(
            m.new_shard_count as nat,
            m.timestamp@,
        )),
        forall|c: nat, ts: Seq<char>|
            c <= u32::MAX && json_string_ok(ts) && s@ == reshard_text(c, ts) ==> (r matches Some(
                m,
            ) && m.new_shard_count as nat == c && m.timestamp@ == ts),
{
    let n = s.unicode_len();
    let ghost sv = s@;
    proof {
        reveal_strlit("{\"event\":\"reshard\",\"new_shard_count\":");
        reveal_strlit(",\"timestamp\":\"");
        reveal_strlit("}");
    }
    let ghost lit1 = "{\"event\":\"reshard\",\"new_shard_count\":"@;
    let ghost lit2 = ",\"timestamp\":\""@;
    let ghost lit3 = "}"@;
    // on the canonical text every stage below succeeds at a fixed position
    proof {
        assert forall|c: nat, ts: Seq<char>|
            c <= u32::MAX && json_string_ok(ts) && sv == reshard_text(c, ts) implies sv.len()
            == lit1.len() as int + dec_digits(c).len() + lit2.len() + (ts.len() + 1) + 1 && sv.subrange(
            0,
            lit1.len() as int,
        ) == lit1 && sv.subrange(
            lit1.len() as int,
            lit1.len() as int + dec_digits(c).len(),
        ) == dec_digits(c) && sv.subrange(
            lit1.len() as int + dec_digits(c).len(),
            lit1.len() as int + dec_digits(c).len() + lit2.len(),
        ) == lit2 && sv.subrange(
            lit1.len() as int + dec_digits(c).len() + lit2.len(),
            lit1.len() as int + dec_digits(c).len() + lit2.len() + ts.len() + 1,
        ) == ts + seq!['"'] && sv.subrange(
            lit1.len() as int + dec_digits(c).len() + lit2.len() + ts.len() + 1,
            sv.len() as int,
        ) == lit3 by {
            lemma_split5(sv, lit1, dec_digits(c), lit2, ts + seq!['"'], lit3);
        }
    }
    let i1 = match expect_lit(s, 0, "{\"event\":\"reshard\",\"new_shard_count\":") {
        Some(j) => j,
        None => {
            return None;
        },
    };
    let (count, i2) = match parse_number(s, i1) {
        Some(p) => p,
        None => {
            proof {
                assert forall|c: nat, ts: Seq<char>|
                    c <= u32::MAX && json_string_ok(ts) && sv == reshard_text(c, ts) implies
                false by {
                    assert(sv.subrange(
                        lit1.len() as int + dec_digits(c).len(),
                        lit1.len() as int + dec_digits(c).len() + lit2.len(),
                    )[0] == sv[lit1.len() as int + dec_digits(c).len()]);
                    assert(sv[lit1.len() as int + dec_digits(c).len()] == ',');
                }
            }
            return None;
        },
    };
    let i3 = match expect_lit(s, i2, ",\"timestamp\":\"") {
        Some(j) => j,
        None => {
            proof {
                assert forall|c: nat, ts: Seq<char>|
                    c <= u32::MAX && json_string_ok(ts) && sv == reshard_text(c, ts) implies
                false by {
                    assert(sv.subrange(
                        lit1.len() as int + dec_digits(c).len(),
                        lit1.len() as int + dec_digits(c).len() + lit2.len(),
                    )[0] == sv[lit1.len() as int + dec_digits(c).len()]);
                    assert(sv[lit1.len() as int + dec_digits(c).len()] == ',');
                    assert(i2 == lit1.len() as int + dec_digits(c).len());
                }
            }
            return None;
        },
    };
    let (timestamp, i4) = match parse_string(s, i3) {
        Some(p) => p,
        None => {
            proof {
                assert forall|c: nat, ts: Seq<char>|
                    c <= u32::MAX && json_string_ok(ts) && sv == reshard_text(c, ts) implies
                false by {
                    assert(sv.subrange(
                        lit1.len() as int + dec_digits(c).len(),
                        lit1.len() as int + dec_digits(c).len() + lit2.len(),
                    )[0] == sv[lit1.len() as int + dec_digits(c).len()]);
                    assert(sv[lit1.len() as int + dec_digits(c).len()] == ',');
                    assert(i2 == lit1.len() as int + dec_digits(c).len());
                    assert(i3 == i2 + lit2.len());
                }
            }
            return None;
        },
    };
    let i5 = match expect_lit(s, i4, "}") {
        Some(j) => j,
        None => {
            proof {
                assert forall|c: nat, ts: Seq<char>|
                    c <= u32::MAX && json_string_ok(ts) && sv == reshard_text(c, ts) implies
                false by {
                    assert(sv.subrange(
                        lit1.len() as int + dec_digits(c).len(),
                        lit1.len() as int + dec_digits(c).len() + lit2.len(),
                    )[0] == sv[lit1.len() as int + dec_digits(c).len()]);
                    assert(sv[lit1.len() as int + dec_digits(c).len()] == ',');
                    assert(i2 == lit1.len() as int + dec_digits(c).len());
                    assert(i3 == i2 + lit2.len());
                    assert(i4 == i3 + ts.len() + 1);
                }
            }
            return None;
        },
    };
    if i5 != n {
        proof {
            assert forall|c: nat, ts: Seq<char>|
                c <= u32::MAX && json_string_ok(ts) && sv == reshard_text(c, ts) implies false by {
                assert(sv.subrange(
                    lit1.len() as int + dec_digits(c).len(),
                    lit1.len() as int + dec_digits(c).len() + lit2.len(),
                )[0] == sv[lit1.len() as int + dec_digits(c).len()]);
                assert(sv[lit1.len() as int + dec_digits(c).len()] == ',');
                assert(i2 == lit1.len() as int + dec_digits(c).len());
                assert(i3 == i2 + lit2.len());
                assert(i4 == i3 + ts.len() + 1);
                assert(i5 == i4 + 1);
            }
        }
        return None;
    }
    proof {
        assert(sv.subrange(i3 as int, i4 as int) =~= timestamp@ + seq!['"']);
        assert(sv.len() == lit1.len() + dec_digits(count as nat).len() + lit2.len() + (
        timestamp@.len() + 1) + lit3.len());
        lemma_join5(
            sv,
            lit1,
            dec_digits(count as nat),
            lit2,
            timestamp@ + seq!['"'],
            lit3,
        );
        assert(sv =~= reshard_text(count as nat, timestamp@));
        // on a canonical text the parsed fields are the encoded ones
        assert forall|c: nat, ts: Seq<char>|
            c <= u32::MAX && json_string_ok(ts) && sv == reshard_text(c, ts) implies count as nat
            == c && timestamp@ == ts by {
            assert(sv.subrange(
                lit1.len() as int + dec_digits(c).len(),
                lit1.len() as int + dec_digits(c).len() + lit2.len(),
            )[0] == sv[lit1.len() as int + dec_digits(c).len()]);
            assert(sv[lit1.len() as int + dec_digits(c).len()] == ',');
            assert(count as nat == c && i2 == lit1.len() as int + dec_digits(c).len());
            assert(i3 == i2 + lit2.len());
            assert(timestamp@ == ts);
        }
    }
    Some(ReshardMessage { new_shard_count: count, timestamp })
}

/// The exact text of a per-shard lifecycle notice published by a worker:
/// `action` is the notice kind, `ts` a unix-seconds timestamp.
pub open spec fn startup_notice_text(
    action: Seq<char>,
    worker: Seq<char>,
    shard: nat,
    ts: nat,
) -> Seq<char> {
    "{\"action\":\""@ + action + "\",\"shard_id\":"@ + dec_digits(shard) + ",\"timestamp\":"@
        + dec_digits(ts) + ",\"worker_id\":\""@ + (worker + seq!['"']) + "}"@
}

fn encode_notice(action: &str, worker_id: &str, shard_id: u32, timestamp: u64) -> (r: Option<
    String,
>)
    ensures
        json_string_ok(worker_id@) ==> (r matches Some(s) && s@ == startup_notice_text(
            action@,
            worker_id@,
            shard_id as nat,
            timestamp as nat,
        )),
        !json_string_ok(worker_id@) ==> r is None,
{
    if !check_json_string(worker_id) {
        return None;
    }
    let mut out = String::from_str("{\"action\":\"");
    out.append(action);
    out.append("\",\"shard_id\":");
    push_dec_u32(&mut out, shard_id);
    out.append(",\"timestamp\":");
    push_dec_u64(&mut out, timestamp);
    out.append(",\"worker_id\":\"");
    out.append(worker_id);
    out.append("\"");
    out.append("}");
    proof {
        reveal_strlit("\"");
        assert("\""@ =~= seq!['"']);
        assert(out@ =~= startup_notice_text(
            action@,
            worker_id@,
            shard_id as nat,
            timestamp as nat,
        ));
    }
    Some(out)
}

/// Writes the notice a worker publishes before it asks to open a shard.
pub fn encode_startup_request(worker_id: &str, shard_id: u32, timestamp: u64) -> (r: Option<
    String,
>)
    ensures
        json_string_ok(worker_id@) ==> (r matches Some(s) && s@ == startup_notice_text(
            "request_startup"@,
            worker_id@,
            shard_id as nat,
            timestamp as nat,
        )),
        !json_string_ok(worker_id@) ==> r is None,
{
    encode_notice("request_startup", worker_id, shard_id, timestamp)
}

/// Writes the notice a worker publishes when a shard session has ended its
/// startup pass.
pub fn encode_startup_complete(worker_id: &str, shard_id: u32, timestamp: u64) -> (r: Option<
    String,
>)
    ensures
        json_string_ok(worker_id@) ==> (r matches Some(s) && s@ == startup_notice_text(
            "startup_complete"@,
            worker_id@,
            shard_id as nat,
            timestamp as nat,
        )),
        !json_string_ok(worker_id@) ==> r is None,
{
    encode_notice("startup_complete", worker_id, shard_id, timestamp)
}

/// A group can stand in a message: its name embeds verbatim and its
/// replica count is not negative.
pub open spec fn group_encodable(g: GroupView) -> bool {
    json_string_ok(g.name) && g.replicas >= 0
}

pub open spec fn groups_encodable(gs: Seq<GroupView>) -> bool {
    forall|k: int| 0 <= k < gs.len() ==> group_encodable(#[trigger] gs[k])
}

/// The closing part of one group's text, after its replica count.
pub open spec fn group_tail_text(g: GroupView) -> Seq<char> {
    ",\"shard_end\":"@ + dec_digits(g.end as nat) + ",\"shard_start\":"@ + dec_digits(
        g.start as nat,
    ) + "}"@
}

/// The exact text of one shard group inside a startup broadcast.
pub open spec fn group_text(g: GroupView) -> Seq<char> {
    "{\"deployment_name\":\""@ + (g.name + seq!['"']) + ",\"replicas\":"@ + dec_digits(
        g.replicas as nat,
    ) + group_tail_text(g)
}

/// The text of the second and later groups of a list, each behind a comma.
pub open spec fn groups_tail_text(gs: Seq<GroupView>) -> Seq<char>
    decreases gs.len(),
{
    if gs.len() == 0 {
        Seq::<char>::empty()
    } else {
        seq![','] + group_text(gs[0]) + groups_tail_text(gs.skip(1))
    }
}

/// The exact text of a group list.
pub open spec fn groups_text(gs: Seq<GroupView>) -> Seq<char> {
    if gs.len() == 0 {
        "[]"@
    } else {
        seq!['['] + group_text(gs[0]) + groups_tail_text(gs.skip(1)) + seq![']']
    }
}

/// Appends one group's text.
fn push_group(out: &mut String, g: &ShardGroup)
    requires
        group_encodable(g@),
    ensures
        final(out)@ == old(out)@ + group_text(g@),
{
    out.append("{\"deployment_name\":\"");
    out.append(g.deployment_name.as_str());
    out.append("\"");
    out.append(",\"replicas\":");
    push_dec_u32(out, g.replicas as u32);
    out.append(",\"shard_end\":");
    push_dec_u32(out, g.shard_end);
    out.append(",\"shard_start\":");
    push_dec_u32(out, g.shard_start);
    out.append("}");
    proof {
        reveal_strlit("\"");
        assert("\""@ =~= seq!['"']);
        assert(out@ =~= old(out)@ + group_text(g@));
    }
}

/// Appends the second and later groups, each behind a comma.
fn push_groups_tail(out: &mut String, gs: &Vec<ShardGroup>, k: usize)
    requires
        k <= gs@.len(),
        groups_encodable(gs.deep_view()),
    ensures
        final(out)@ == old(out)@ + groups_tail_text(gs.deep_view().skip(k as int)),
    decreases gs@.len() - k,
{
    if k == gs.len() {
        proof {
            assert(gs.deep_view().skip(k as int) =~= Seq::<GroupView>::empty());
            assert(out@ =~= old(out)@ + groups_tail_text(gs.deep_view().skip(k as int)));
        }
    } else {
        out.append(",");
        proof {
            reveal_strlit(",");
            assert(gs.deep_view()[k as int] == gs@[k as int].deep_view());
        }
        push_group(out, &gs[k]);
        push_groups_tail(out, gs, k + 1);
        proof {
            let dv = gs.deep_view();
            assert(dv.skip(k as int)[0] == dv[k as int]);
            assert(dv.skip(k as int).skip(1) =~= dv.skip(k + 1));
            assert(","@ =~= seq![',']);
            assert(out@ =~= old(out)@ + groups_tail_text(dv.skip(k as int)));
        }
    }
}

/// Appends the whole group list.
fn push_groups(out: &mut String, gs: &Vec<ShardGroup>)
    requires
        groups_encodable(gs.deep_view()),
    ensures
        final(out)@ == old(out)@ + groups_text(gs.deep_view()),
{
    if gs.len() == 0 {
        out.append("[]");
        proof {
            assert(gs.deep_view().len() == 0);
        }
    } else {
        out.append("[");
        proof {
            assert(gs.deep_view()[0] == gs@[0].deep_view());
        }
        push_group(out, &gs[0]);
        push_groups_tail(out, gs, 1);
        out.append("]");
        proof {
            reveal_strlit("[");
            reveal_strlit("]");
            assert("["@ =~= seq!['[']);
            assert("]"@ =~= seq![']']);
            let dv = gs.deep_view();
            assert(dv[0] == gs@[0].deep_view());
            assert(out@ =~= old(out)@ + groups_text(dv));
        }
    }
}

/// An operator-to-worker startup coordination broadcast.
pub struct StartupCoordination {
    pub cluster: String,
    pub max_concurrency: u32,
    pub total_shards: u32,
    pub shard_groups: Vec<ShardGroup>,
    pub timestamp: String,
}

/// The exact text of a startup coordination broadcast.
pub open spec fn startup_coordination_text(
    cluster: Seq<char>,
    max_concurrency: nat,
    total: nat,
    gs: Seq<GroupView>,
    ts: Seq<char>,
) -> Seq<char> {
    "{\"cluster\":\""@ + (cluster + seq!['"'])
        + ",\"event\":\"startup_coordination\",\"max_concurrency\":"@ + dec_digits(max_concurrency)
        + (",\"shard_groups\":"@ + groups_text(gs) + ",\"timestamp\":\""@ + (ts + seq!['"'])
        + (",\"total_shards\":"@ + dec_digits(total) + "}"@))
}

/// Writes the startup coordination broadcast; refuses a cluster name,
/// timestamp or group that cannot stand in a JSON text verbatim.
pub fn encode_startup_coordination(
    cluster: &str,
    max_concurrency: u32,
    total_shards: u32,
    shard_groups: &Vec<ShardGroup>,
    timestamp: &str,
) -> (r: Option<String>)
    ensures
        json_string_ok(cluster@) && json_string_ok(timestamp@) && groups_encodable(
            shard_groups.deep_view(),
        ) ==> (r matches Some(s) && s@ == startup_coordination_text(
            cluster@,
            max_concurrency as nat,
            total_shards as nat,
            shard_groups.deep_view(),
            timestamp@,
        )),
        !(json_string_ok(cluster@) && json_string_ok(timestamp@) && groups_encodable(
            shard_groups.deep_view(),
        )) ==> r is None,
{
    if !check_json_string(cluster) || !check_json_string(timestamp) {
        return None;
    }
    let mut k: usize = 0;
    while k < shard_groups.len()
        invariant
            0 <= k <= shard_groups@.len(),
            forall|m: int|
                0 <= m < k ==> group_encodable(#[trigger] shard_groups.deep_view()[m]),
        decreases shard_groups@.len() - k,
    {
        let g = &shard_groups[k];
        if !check_json_string(g.deployment_name.as_str()) || g.replicas < 0 {
            proof {
                assert(!group_encodable(shard_groups.deep_view()[k as int]));
            }
            return None;
        }
        k = k + 1;
    }
    let mut out = String::from_str("{\"cluster\":\"");
    out.append(cluster);
    out.append("\"");
    out.append(",\"event\":\"startup_coordination\",\"max_concurrency\":");
    push_dec_u32(&mut out, max_concurrency);
    out.append(",\"shard_groups\":");
    push_groups(&mut out, shard_groups);
    out.append(",\"timestamp\":\"");
    out.append(timestamp);
    out.append("\"");
    out.append(",\"total_shards\":");
    push_dec_u32(&mut out, total_shards);
    out.append("}");
    proof {
        reveal_strlit("\"");
        assert("\""@ =~= seq!['"']);
        assert(out@ =~= startup_coordination_text(
            cluster@,
            max_concurrency as nat,
            total_shards as nat,
            shard_groups.deep_view(),
            timestamp@,
        ));
    }
    Some(out)
}

/// Anchored form of `lemma_split5`: a slice of `sv` made of five segments
/// slices into them.
proof fn lemma_split5_at(
    sv: Seq<char>,
    p: int,
    a: Seq<char>,
    b: Seq<char>,
    c: Seq<char>,
    d: Seq<char>,
    e: Seq<char>,
)
    requires
        0 <= p,
        p + a.len() + b.len() + c.len() + d.len() + e.len() <= sv.len(),
        sv.subrange(p, p + a.len() + b.len() + c.len() + d.len() + e.len()) == a + b + c + d + e,
    ensures
        sv.subrange(p, p + a.len() as int) == a,
        sv.subrange(p + a.len() as int, p + a.len() + b.len()) == b,
        sv.subrange(p + a.len() + b.len(), p + a.len() + b.len() + c.len()) == c,
        sv.subrange(
            p + a.len() + b.len() + c.len(),
            p + a.len() + b.len() + c.len() + d.len(),
        ) == d,
        sv.subrange(
            p + a.len() + b.len() + c.len() + d.len(),
            p + a.len() + b.len() + c.len() + d.len() + e.len(),
        ) == e,
{
    let q = p + a.len() + b.len() + c.len() + d.len() + e.len();
    let w = sv.subrange(p, q);
    lemma_split5(w, a, b, c, d, e);
    let la = a.len() as int;
    let lb = b.len() as int;
    let lc = c.len() as int;
    let ld = d.len() as int;
    let le = e.len() as int;
    assert(sv.subrange(p, p + la) =~= w.subrange(0, la));
    assert(sv.subrange(p + la, p + la + lb) =~= w.subrange(la, la + lb));
    assert(sv.subrange(p + la + lb, p + la + lb + lc) =~= w.subrange(la + lb, la + lb + lc));
    assert(sv.subrange(p + la + lb + lc, p + la + lb + lc + ld) =~= w.subrange(
        la + lb + lc,
        la + lb + lc + ld,
    ));
    assert(sv.subrange(p + la + lb + lc + ld, q) =~= w.subrange(la + lb + lc + ld, w.len() as int));
}

/// Anchored form of `lemma_join5`: five adjacent matched segments make up
/// the slice they cover.
proof fn lemma_join5_at(
    sv: Seq<char>,
    p: int,
    a: Seq<char>,
    b: Seq<char>,
    c: Seq<char>,
    d: Seq<char>,
    e: Seq<char>,
)
    requires
        0 <= p,
        p + a.len() + b.len() + c.len() + d.len() + e.len() <= sv.len(),
        sv.subrange(p, p + a.len() as int) == a,
        sv.subrange(p + a.len() as int, p + a.len() + b.len()) == b,
        sv.subrange(p + a.len() + b.len(), p + a.len() + b.len() + c.len()) == c,
        sv.subrange(
            p + a.len() + b.len() + c.len(),
            p + a.len() + b.len() + c.len() + d.len(),
        ) == d,
        sv.subrange(
            p + a.len() + b.len() + c.len() + d.len(),
            p + a.len() + b.len() + c.len() + d.len() + e.len(),
        ) == e,
    ensures
        sv.subrange(p, p + a.len() + b.len() + c.len() + d.len() + e.len()) == a + b + c + d + e,
{
    let q = p + a.len() + b.len() + c.len() + d.len() + e.len();
    let w = sv.subrange(p, q);
    let la = a.len() as int;
    let lb = b.len() as int;
    let lc = c.len() as int;
    let ld = d.len() as int;
    assert(w.subrange(0, la) =~= sv.subrange(p, p + la));
    assert(w.subrange(la, la + lb) =~= sv.subrange(p + la, p + la + lb));
    assert(w.subrange(la + lb, la + lb + lc) =~= sv.subrange(p + la + lb, p + la + lb + lc));
    assert(w.subrange(la + lb + lc, la + lb + lc + ld) =~= sv.subrange(
        p + la + lb + lc,
        p + la + lb + lc + ld,
    ));
    assert(w.subrange(la + lb + lc + ld, w.len() as int) =~= sv.subrange(p + la + lb + lc + ld, q));
    lemma_join5(w, a, b, c, d, e);
}

/// Where each piece of one group's text lies, when a slice of `sv` holds
/// that text.
proof fn lemma_group_positions(sv: Seq<char>, i: int, g: GroupView, j: int)
    requires
        group_encodable(g),
        0 <= i,
        i + group_text(g).len() == j <= sv.len(),
        sv.subrange(i, j) == group_text(g),
    ensures
        sv.subrange(i, i + 20) == "{\"deployment_name\":\""@,
        sv.subrange(i + 20, i + 20 + g.name.len() + 1) == g.name + seq!['"'],
        sv.subrange(
            i + 21 + g.name.len(),
            i + 33 + g.name.len(),
        ) == ",\"replicas\":"@,
        sv.subrange(
            i + 33 + g.name.len(),
            i + 33 + g.name.len() + dec_digits(g.replicas as nat).len(),
        ) == dec_digits(g.replicas as nat),
        !is_digit(sv[i + 33 + g.name.len() + dec_digits(g.replicas as nat).len()]),
        sv.subrange(
            i + 33 + g.name.len() + dec_digits(g.replicas as nat).len(),
            i + 46 + g.name.len() + dec_digits(g.replicas as nat).len(),
        ) == ",\"shard_end\":"@,
        sv.subrange(
            i + 46 + g.name.len() + dec_digits(g.replicas as nat).len(),
            i + 46 + g.name.len() + dec_digits(g.replicas as nat).len() + dec_digits(
                g.end as nat,
            ).len(),
        ) == dec_digits(g.end as nat),
        !is_digit(
            sv[i + 46 + g.name.len() + dec_digits(g.replicas as nat).len() + dec_digits(
                g.end as nat,
            ).len()],
        ),
        sv.subrange(
            i + 46 + g.name.len() + dec_digits(g.replicas as nat).len() + dec_digits(
                g.end as nat,
            ).len(),
            i + 61 + g.name.len() + dec_digits(g.replicas as nat).len() + dec_digits(
                g.end as nat,
            ).len(),
        ) == ",\"shard_start\":"@,
        sv.subrange(
            i + 61 + g.name.len() + dec_digits(g.replicas as nat).len() + dec_digits(
                g.end as nat,
            ).len(),
            i + 61 + g.name.len() + dec_digits(g.replicas as nat).len() + dec_digits(
                g.end as nat,
            ).len() + dec_digits(g.start as nat).len(),
        ) == dec_digits(g.start as nat),
        j == i + 62 + g.name.len() + dec_digits(g.replicas as nat).len() + dec_digits(
            g.end as nat,
        ).len() + dec_digits(g.start as nat).len(),
        j - 1 < sv.len() && sv[j - 1] == '}',
        j - 1 == i + 61 + g.name.len() + dec_digits(g.replicas as nat).len() + dec_digits(
            g.end as nat,
        ).len() + dec_digits(g.start as nat).len() ==> !is_digit(sv[j - 1]),
        sv.subrange(
            i + 33 + g.name.len() + dec_digits(g.replicas as nat).len(),
            j,
        ) == group_tail_text(g),
{
    reveal_strlit("{\"deployment_name\":\"");
    reveal_strlit(",\"replicas\":");
    reveal_strlit(",\"shard_end\":");
    reveal_strlit(",\"shard_start\":");
    reveal_strlit("}");
    let lit1 = "{\"deployment_name\":\""@;
    let lit2 = ",\"replicas\":"@;
    let lit3 = ",\"shard_end\":"@;
    let lit4 = ",\"shard_start\":"@;
    let lit5 = "}"@;
    let dr = dec_digits(g.replicas as nat);
    let de = dec_digits(g.end as nat);
    let ds = dec_digits(g.start as nat);
    let tail = group_tail_text(g);
    assert(sv.subrange(i, j) == lit1 + (g.name + seq!['"']) + lit2 + dr + tail);
    lemma_split5_at(sv, i, lit1, g.name + seq!['"'], lit2, dr, tail);
    let p4 = i + 33 + g.name.len() + dr.len();
    assert(sv.subrange(p4 as int, j) == tail);
    assert(tail =~= lit3 + de + lit4 + ds + lit5);
    lemma_split5_at(sv, p4 as int, lit3, de, lit4, ds, lit5);
    // the char after each number is a comma or the closing brace
    assert(sv.subrange(p4 as int, p4 + 13)[0] == sv[p4 as int]);
    assert(sv[p4 as int] == ',');
    let p6 = p4 + 13 + de.len();
    assert(sv.subrange(p6 as int, p6 + 15)[0] == sv[p6 as int]);
    assert(sv[p6 as int] == ',');
    assert(sv.subrange(j - 1, j)[0] == sv[j - 1]);
    assert(sv[j - 1] == '}');
}

/// The closing part of a group's text for the given shard range.
pub open spec fn group_tail_text_raw(end: nat, start: nat) -> Seq<char> {
    ",\"shard_end\":"@ + dec_digits(end) + ",\"shard_start\":"@ + dec_digits(start) + "}"@
}

/// Where each piece of a group's closing part lies.
proof fn lemma_group_tail_positions(sv: Seq<char>, i: int, e: nat, st: nat, j: int)
    requires
        0 <= i,
        i + group_tail_text_raw(e, st).len() == j <= sv.len(),
        sv.subrange(i, j) == group_tail_text_raw(e, st),
    ensures
        sv.subrange(i, i + 13) == ",\"shard_end\":"@,
        sv.subrange(i + 13, i + 13 + dec_digits(e).len()) == dec_digits(e),
        !is_digit(sv[i + 13 + dec_digits(e).len()]),
        sv.subrange(
            i + 13 + dec_digits(e).len(),
            i + 28 + dec_digits(e).len(),
        ) == ",\"shard_start\":"@,
        sv.subrange(
            i + 28 + dec_digits(e).len(),
            i + 28 + dec_digits(e).len() + dec_digits(st).len(),
        ) == dec_digits(st),
        j == i + 29 + dec_digits(e).len() + dec_digits(st).len(),
        sv[j - 1] == '}',
        j - 1 == i + 28 + dec_digits(e).len() + dec_digits(st).len() ==> !is_digit(sv[j - 1]),
{
    reveal_strlit(",\"shard_end\":");
    reveal_strlit(",\"shard_start\":");
    reveal_strlit("}");
    let lit3 = ",\"shard_end\":"@;
    let lit4 = ",\"shard_start\":"@;
    let lit5 = "}"@;
    let de = dec_digits(e);
    let ds = dec_digits(st);
    assert(sv.subrange(i, j) =~= lit3 + de + lit4 + ds + lit5);
    lemma_split5_at(sv, i, lit3, de, lit4, ds, lit5);
    let p1 = i + 13 + de.len();
    assert(sv.subrange(p1 as int, p1 + 15)[0] == sv[p1 as int]);
    assert(sv[p1 as int] == ',');
    assert(sv.subrange(j - 1, j)[0] == sv[j - 1]);
}

/// Parses a group's closing part: its shard range and the brace.
#[verifier::rlimit(60)]
fn parse_group_tail(s: &str, i: usize) -> (r: Option<(u32, u32, usize)>)
    requires
        i <= s@.len(),
    ensures
        (r matches Some(p) ==> i < p.2 <= s@.len() && s@.subrange(i as int, p.2 as int)
            == group_tail_text_raw(p.0 as nat, p.1 as nat)),
        forall|e: nat, st: nat, j: int|
            e <= u32::MAX && st <= u32::MAX && i + group_tail_text_raw(e, st).len() == j
                <= s@.len() && s@.subrange(i as int, j) == group_tail_text_raw(e, st) ==> r
                == Some((e as u32, st as u32, j as usize)),
{
    let ghost sv = s@;
    proof {
        reveal_strlit(",\"shard_end\":");
        reveal_strlit(",\"shard_start\":");
        reveal_strlit("}");
    }
    let i1 = match expect_lit(s, i, ",\"shard_end\":") {
        Some(j) => j,
        None => {
            proof {
                assert forall|e: nat, st: nat, j: int|
                    e <= u32::MAX && st <= u32::MAX && i + group_tail_text_raw(e, st).len() == j
                        <= sv.len() && sv.subrange(i as int, j) == group_tail_text_raw(
                        e,
                        st,
                    ) implies false by {
                    lemma_group_tail_positions(sv, i as int, e, st, j);
                }
            }
            return None;
        },
    };
    let (end, i2) = match parse_number(s, i1) {
        Some(p) => p,
        None => {
            proof {
                assert forall|e: nat, st: nat, j: int|
                    e <= u32::MAX && st <= u32::MAX && i + group_tail_text_raw(e, st).len() == j
                        <= sv.len() && sv.subrange(i as int, j) == group_tail_text_raw(
                        e,
                        st,
                    ) implies false by {
                    lemma_group_tail_positions(sv, i as int, e, st, j);
                    assert(i1 == i + 13);
                }
            }
            return None;
        },
    };
    let i3 = match expect_lit(s, i2, ",\"shard_start\":") {
        Some(j) => j,
        None => {
            proof {
                assert forall|e: nat, st: nat, j: int|
                    e <= u32::MAX && st <= u32::MAX && i + group_tail_text_raw(e, st).len() == j
                        <= sv.len() && sv.subrange(i as int, j) == group_tail_text_raw(
                        e,
                        st,
                    ) implies false by {
                    lemma_group_tail_positions(sv, i as int, e, st, j);
                    assert(i1 == i + 13);
                    assert(end as nat == e && i2 == i1 + dec_digits(e).len());
                }
            }
            return None;
        },
    };
    let (start, i4) = match parse_number(s, i3) {
        Some(p) => p,
        None => {
            proof {
                assert forall|e: nat, st: nat, j: int|
                    e <= u32::MAX && st <= u32::MAX && i + group_tail_text_raw(e, st).len() == j
                        <= sv.len() && sv.subrange(i as int, j) == group_tail_text_raw(
                        e,
                        st,
                    ) implies false by {
                    lemma_group_tail_positions(sv, i as int, e, st, j);
                    assert(i1 == i + 13);
                    assert(end as nat == e && i2 == i1 + dec_digits(e).len());
                    assert(i3 == i2 + 15);
                }
            }
            return None;
        },
    };
    let i5 = match expect_lit(s, i4, "}") {
        Some(j) => j,
        None => {
            proof {
                assert forall|e: nat, st: nat, j: int|
                    e <= u32::MAX && st <= u32::MAX && i + group_tail_text_raw(e, st).len() == j
                        <= sv.len() && sv.subrange(i as int, j) == group_tail_text_raw(
                        e,
                        st,
                    ) implies false by {
                    lemma_group_tail_positions(sv, i as int, e, st, j);
                    assert(i1 == i + 13);
                    assert(end as nat == e && i2 == i1 + dec_digits(e).len());
                    assert(i3 == i2 + 15);
                    assert(start as nat == st && i4 == i3 + dec_digits(st).len());
                    assert(sv.subrange(j - 1, j) =~= "}"@);
                }
            }
            return None;
        },
    };
    proof {
        assert(sv.subrange(i5 as int, i5 as int) =~= Seq::<char>::empty());
        lemma_join5_at(
            sv,
            i as int,
            ",\"shard_end\":"@,
            dec_digits(end as nat),
            ",\"shard_start\":"@,
            dec_digits(start as nat),
            "}"@,
        );
        assert(sv.subrange(i as int, i5 as int) == group_tail_text_raw(
            end as nat,
            start as nat,
        ));
        assert forall|e: nat, st: nat, j: int|
            e <= u32::MAX && st <= u32::MAX && i + group_tail_text_raw(e, st).len() == j
                <= sv.len() && sv.subrange(i as int, j) == group_tail_text_raw(e, st) implies
        end as nat == e && start as nat == st && i5 == j by {
            lemma_group_tail_positions(sv, i as int, e, st, j);
            assert(i1 == i + 13);
            assert(end as nat == e && i2 == i1 + dec_digits(e).len());
            assert(i3 == i2 + 15);
            assert(start as nat == st && i4 == i3 + dec_digits(st).len());
        }
    }
    Some((end, start, i5))
}

/// Parses one group's text at position `i`.
#[verifier::rlimit(60)]
fn parse_group(s: &str, i: usize) -> (r: Option<(ShardGroup, usize)>)
    requires
        i <= s@.len(),
    ensures
        (r matches Some(p) ==> i < p.1 <= s@.len() && group_encodable(p.0@) && s@.subrange(
            i as int,
            p.1 as int,
        ) == group_text(p.0@)),
        forall|g: GroupView, j: int|
            group_encodable(g) && i + group_text(g).len() == j <= s@.len() && s@.subrange(
                i as int,
                j,
            ) == group_text(g) ==> (r matches Some(p) && p.0@ == g && p.1 == j),
{
    let ghost sv = s@;
    proof {
        reveal_strlit("{\"deployment_name\":\"");
        reveal_strlit(",\"replicas\":");
    }
    let i1 = match expect_lit(s, i, "{\"deployment_name\":\"") {
        Some(j) => j,
        None => {
            proof {
                assert forall|g: GroupView, j: int|
                    group_encodable(g) && i + group_text(g).len() == j <= sv.len() && sv.subrange(
                        i as int,
                        j,
                    ) == group_text(g) implies false by {
                    lemma_group_positions(sv, i as int, g, j);
                }
            }
            return None;
        },
    };
    let (name, i2) = match parse_string(s, i1) {
        Some(p) => p,
        None => {
            proof {
                assert forall|g: GroupView, j: int|
                    group_encodable(g) && i + group_text(g).len() == j <= sv.len() && sv.subrange(
                        i as int,
                        j,
                    ) == group_text(g) implies false by {
                    lemma_group_positions(sv, i as int, g, j);
                    assert(i1 == i + 20);
                }
            }
            return None;
        },
    };
    let i3 = match expect_lit(s, i2, ",\"replicas\":") {
        Some(j) => j,
        None => {
            proof {
                assert forall|g: GroupView, j: int|
                    group_encodable(g) && i + group_text(g).len() == j <= sv.len() && sv.subrange(
                        i as int,
                        j,
                    ) == group_text(g) implies false by {
                    lemma_group_positions(sv, i as int, g, j);
                    assert(i1 == i + 20);
                    assert(name@ == g.name && i2 == i + 21 + g.name.len());
                }
            }
            return None;
        },
    };
    let (replicas, i4) = match parse_number(s, i3) {
        Some(p) => p,
        None => {
            proof {
                assert forall|g: GroupView, j: int|
                    group_encodable(g) && i + group_text(g).len() == j <= sv.len() && sv.subrange(
                        i as int,
                        j,
                    ) == group_text(g) implies false by {
                    lemma_group_positions(sv, i as int, g, j);
                    assert(i1 == i + 20);
                    assert(name@ == g.name && i2 == i + 21 + g.name.len());
                    assert(i3 == i + 33 + g.name.len());
                }
            }
            return None;
        },
    };
    if replicas > 0x7fff_ffffu32 {
        proof {
            assert forall|g: GroupView, j: int|
                group_encodable(g) && i + group_text(g).len() == j <= sv.len() && sv.subrange(
                    i as int,
                    j,
                ) == group_text(g) implies false by {
                lemma_group_positions(sv, i as int, g, j);
                assert(i1 == i + 20);
                assert(name@ == g.name && i2 == i + 21 + g.name.len());
                assert(i3 == i + 33 + g.name.len());
                assert(replicas as nat == g.replicas as nat);
            }
        }
        return None;
    }
    let (end, start, i5) = match parse_group_tail(s, i4) {
        Some(p) => p,
        None => {
            proof {
                assert forall|g: GroupView, j: int|
                    group_encodable(g) && i + group_text(g).len() == j <= sv.len() && sv.subrange(
                        i as int,
                        j,
                    ) == group_text(g) implies false by {
                    lemma_group_positions(sv, i as int, g, j);
                    assert(i1 == i + 20);
                    assert(name@ == g.name && i2 == i + 21 + g.name.len());
                    assert(i3 == i + 33 + g.name.len());
                    assert(replicas as nat == g.replicas as nat && i4 == i3 + dec_digits(
                        g.replicas as nat,
                    ).len());
                    assert(sv.subrange(i4 as int, j) == group_tail_text_raw(
                        g.end as nat,
                        g.start as nat,
                    ));
                }
            }
            return None;
        },
    };
    let group = ShardGroup {
        deployment_name: name,
        shard_start: start,
        shard_end: end,
        replicas: replicas as i32,
    };
    proof {
        let gv = group@;
        assert(gv.name == group.deployment_name@);
        assert(group_tail_text_raw(gv.end as nat, gv.start as nat) == group_tail_text(gv));
        assert(sv.subrange(i4 as int, i5 as int) == group_tail_text(gv));
        assert(sv.subrange(i1 as int, i2 as int) =~= gv.name + seq!['"']);
        lemma_join5_at(
            sv,
            i as int,
            "{\"deployment_name\":\""@,
            gv.name + seq!['"'],
            ",\"replicas\":"@,
            dec_digits(gv.replicas as nat),
            group_tail_text(gv),
        );
        assert(sv.subrange(i as int, i5 as int) == group_text(gv));
        // on a canonical slice the parsed fields are the encoded ones
        assert forall|g: GroupView, j: int|
            group_encodable(g) && i + group_text(g).len() == j <= sv.len() && sv.subrange(
                i as int,
                j,
            ) == group_text(g) implies gv == g && i5 == j by {
            lemma_group_positions(sv, i as int, g, j);
            assert(i1 == i + 20);
            assert(name@ == g.name && i2 == i + 21 + g.name.len());
            assert(i3 == i + 33 + g.name.len());
            assert(replicas as nat == g.replicas as nat && i4 == i3 + dec_digits(
                g.replicas as nat,
            ).len());
            assert(sv.subrange(i4 as int, j) == group_tail_text_raw(g.end as nat, g.start as nat));
            assert(end as nat == g.end as nat && start as nat == g.start as nat && i5 == j);
            assert(gv =~= g);
        }
    }
    Some((group, i5))
}

/// Where the head group and the remaining tail lie, when a slice of `sv`
/// holds a non-empty list tail followed by the closing bracket.
proof fn lemma_tail_positions(sv: Seq<char>, i: int, gs: Seq<GroupView>, j: int)
    requires
        groups_encodable(gs),
        gs.len() > 0,
        0 <= i,
        i + groups_tail_text(gs).len() + 1 == j <= sv.len(),
        sv.subrange(i, j) == groups_tail_text(gs) + seq![']'],
    ensures
        sv[i] == ',',
        i + 1 + group_text(gs[0]).len() < j,
        sv.subrange(i + 1, i + 1 + group_text(gs[0]).len()) == group_text(gs[0]),
        sv.subrange(i + 1 + group_text(gs[0]).len(), j) == groups_tail_text(gs.skip(1)) + seq![
            ']',
        ],
        i + 1 + group_text(gs[0]).len() + groups_tail_text(gs.skip(1)).len() + 1 == j,
{
    let g0 = group_text(gs[0]);
    let rest = groups_tail_text(gs.skip(1)) + seq![']'];
    assert(groups_tail_text(gs) == seq![','] + g0 + groups_tail_text(gs.skip(1)));
    assert(sv.subrange(i, j) =~= seq![','] + g0 + rest + Seq::<char>::empty()
        + Seq::<char>::empty());
    lemma_split5_at(sv, i, seq![','], g0, rest, Seq::<char>::empty(), Seq::<char>::empty());
    assert(sv.subrange(i, i + 1)[0] == sv[i]);
}

/// Parses the second and later groups of a list, up to and including the
/// closing bracket, appending them to `out`.
#[verifier::rlimit(60)]
fn parse_groups_tail(s: &str, i: usize, out: &mut Vec<ShardGroup>) -> (r: Option<usize>)
    requires
        i <= s@.len(),
    ensures
        (r matches Some(j) ==> {
            let pre = old(out).deep_view();
            let post = final(out).deep_view();
            &&& i < j <= s@.len()
            &&& post.len() >= pre.len()
            &&& post.take(pre.len() as int) == pre
            &&& groups_encodable(post.skip(pre.len() as int))
            &&& s@.subrange(i as int, j as int) == groups_tail_text(
                post.skip(pre.len() as int),
            ) + seq![']']
        }),
        forall|gs: Seq<GroupView>, j: int|
            groups_encodable(gs) && i + groups_tail_text(gs).len() + 1 == j <= s@.len()
                && s@.subrange(i as int, j) == groups_tail_text(gs) + seq![']'] ==> (r == Some(
                j as usize,
            ) && final(out).deep_view() == old(out).deep_view() + gs),
    decreases s@.len() - i,
{
    let n = s.unicode_len();
    let ghost sv = s@;
    let ghost pre = out.deep_view();
    if i >= n {
        return None;
    }
    let c0 = s.get_char(i);
    if c0 == ']' {
        proof {
            assert(pre.skip(pre.len() as int) =~= Seq::<GroupView>::empty());
            assert(pre.take(pre.len() as int) =~= pre);
            assert(sv.subrange(i as int, i + 1) =~= groups_tail_text(Seq::<GroupView>::empty())
                + seq![']']);
            assert forall|gs: Seq<GroupView>, j: int|
                groups_encodable(gs) && i + groups_tail_text(gs).len() + 1 == j <= sv.len()
                    && sv.subrange(i as int, j) == groups_tail_text(gs) + seq![']'] implies (Some(
                (i + 1) as usize,
            ) == Some(j as usize) && out.deep_view() == pre + gs) by {
                if gs.len() == 0 {
                    assert(j == i + 1);
                    assert(pre + gs =~= pre);
                } else {
                    lemma_tail_positions(sv, i as int, gs, j);
                }
            }
        }
        return Some(i + 1);
    }
    if c0 != ',' {
        proof {
            assert forall|gs: Seq<GroupView>, j: int|
                groups_encodable(gs) && i + groups_tail_text(gs).len() + 1 == j <= sv.len()
                    && sv.subrange(i as int, j) == groups_tail_text(gs) + seq![']'] implies
            false by {
                if gs.len() == 0 {
                    assert(sv.subrange(i as int, j)[0] == sv[i as int]);
                } else {
                    lemma_tail_positions(sv, i as int, gs, j);
                }
            }
        }
        return None;
    }
    let (g, j1) = match parse_group(s, i + 1) {
        Some(p) => p,
        None => {
            proof {
                assert forall|gs: Seq<GroupView>, j: int|
                    groups_encodable(gs) && i + groups_tail_text(gs).len() + 1 == j <= sv.len()
                        && sv.subrange(i as int, j) == groups_tail_text(gs) + seq![']'] implies
                false by {
                    if gs.len() == 0 {
                        assert(sv.subrange(i as int, j)[0] == sv[i as int]);
                    } else {
                        lemma_tail_positions(sv, i as int, gs, j);
                        assert(group_encodable(gs[0]));
                        assert(sv.subrange(i + 1, i + 1 + group_text(gs[0]).len())
                            == group_text(gs[0]));
                    }
                }
            }
            return None;
        },
    };
    out.push(g);
    let ghost mid = out.deep_view();
    proof {
        assert(mid =~= pre + seq![g@]);
    }
    let r2 = parse_groups_tail(s, j1, out);
    match r2 {
        Some(j2) => {
            proof {
                let post = out.deep_view();
                let x = post.skip(pre.len() as int);
                assert(post.take(mid.len() as int) == mid);
                assert(post.take(pre.len() as int) =~= pre);
                assert(post.take(mid.len() as int)[pre.len() as int] == post[pre.len() as int]);
                assert(post[pre.len() as int] == mid[pre.len() as int]);
                assert(post[pre.len() as int] == g@);
                assert(x.len() >= 1);
                assert(x[0] == g@);
                assert(x.skip(1) =~= post.skip(mid.len() as int));
                assert(groups_encodable(x)) by {
                    assert forall|k: int| 0 <= k < x.len() implies group_encodable(
                        #[trigger] x[k],
                    ) by {
                        if k >= 1 {
                            assert(x[k] == post.skip(mid.len() as int)[k - 1]);
                        }
                    }
                }
                // reassemble: comma, head group, then the rest with its bracket
                assert(sv.subrange(i as int, i + 1) =~= seq![',']);
                let lb = group_text(g@).len() as int;
                let lc = (groups_tail_text(x.skip(1)) + seq![']']).len() as int;
                assert(j1 == i + 1 + lb);
                assert(j2 == j1 + lc);
                assert(sv.subrange(i + 1 + lb + lc, i + 1 + lb + lc) =~= Seq::<char>::empty());
                lemma_join5_at(
                    sv,
                    i as int,
                    seq![','],
                    group_text(g@),
                    groups_tail_text(x.skip(1)) + seq![']'],
                    Seq::<char>::empty(),
                    Seq::<char>::empty(),
                );
                assert(sv.subrange(i as int, j2 as int) =~= seq![','] + group_text(g@) + (
                groups_tail_text(x.skip(1)) + seq![']']));
                assert(groups_tail_text(x) == seq![','] + group_text(x[0]) + groups_tail_text(
                    x.skip(1),
                ));
                assert(sv.subrange(i as int, j2 as int) =~= groups_tail_text(x) + seq![']']);
                // on a canonical slice the parsed groups are the encoded ones
                assert forall|gs: Seq<GroupView>, j: int|
                    groups_encodable(gs) && i + groups_tail_text(gs).len() + 1 == j <= sv.len()
                        && sv.subrange(i as int, j) == groups_tail_text(gs) + seq![']'] implies (
                Some(j2) == Some(j as usize) && post == pre + gs) by {
                    if gs.len() == 0 {
                        assert(sv.subrange(i as int, j)[0] == sv[i as int]);
                    } else {
                        lemma_tail_positions(sv, i as int, gs, j);
                        assert(group_encodable(gs[0]));
                        assert(g@ == gs[0] && j1 == i + 1 + group_text(gs[0]).len());
                        assert(groups_encodable(gs.skip(1))) by {
                            assert forall|k: int|
                                0 <= k < gs.skip(1).len() implies group_encodable(
                                #[trigger] gs.skip(1)[k],
                            ) by {
                                assert(gs.skip(1)[k] == gs[k + 1]);
                            }
                        }
                        assert(sv.subrange(j1 as int, j) == groups_tail_text(gs.skip(1)) + seq![
                            ']',
                        ]);
                        assert(post == mid + gs.skip(1));
                        assert(post =~= pre + gs);
                    }
                }
            }
            Some(j2)
        },
        None => {
            proof {
                assert forall|gs: Seq<GroupView>, j: int|
                    groups_encodable(gs) && i + groups_tail_text(gs).len() + 1 == j <= sv.len()
                        && sv.subrange(i as int, j) == groups_tail_text(gs) + seq![']'] implies
                false by {
                    if gs.len() == 0 {
                        assert(sv.subrange(i as int, j)[0] == sv[i as int]);
                    } else {
                        lemma_tail_positions(sv, i as int, gs, j);
                        assert(group_encodable(gs[0]));
                        assert(g@ == gs[0] && j1 == i + 1 + group_text(gs[0]).len());
                        assert(groups_encodable(gs.skip(1))) by {
                            assert forall|k: int|
                                0 <= k < gs.skip(1).len() implies group_encodable(
                                #[trigger] gs.skip(1)[k],
                            ) by {
                                assert(gs.skip(1)[k] == gs[k + 1]);
                            }
                        }
                        assert(sv.subrange(j1 as int, j) == groups_tail_text(gs.skip(1)) + seq![
                            ']',
                        ]);
                    }
                }
            }
            None
        },
    }
}

/// Where the pieces of a whole group list lie.
proof fn lemma_groups_positions(sv: Seq<char>, i: int, gs: Seq<GroupView>, j: int)
    requires
        groups_encodable(gs),
        0 <= i,
        i + groups_text(gs).len() == j <= sv.len(),
        sv.subrange(i, j) == groups_text(gs),
    ensures
        j >= i + 2,
        sv[i] == '[',
        gs.len() == 0 ==> j == i + 2 && sv[i + 1] == ']',
        gs.len() > 0 ==> sv[i + 1] == '{',
        gs.len() > 0 ==> i + 1 + group_text(gs[0]).len() < j,
        gs.len() > 0 ==> sv.subrange(i + 1, i + 1 + group_text(gs[0]).len()) == group_text(gs[0]),
        gs.len() > 0 ==> sv.subrange(i + 1 + group_text(gs[0]).len(), j) == groups_tail_text(
            gs.skip(1),
        ) + seq![']'],
        gs.len() > 0 ==> i + 1 + group_text(gs[0]).len() + groups_tail_text(gs.skip(1)).len() + 1
            == j,
{
    if gs.len() == 0 {
        reveal_strlit("[]");
        assert(sv.subrange(i, j)[0] == sv[i]);
        assert(sv.subrange(i, j)[1] == sv[i + 1]);
    } else {
        let g0 = group_text(gs[0]);
        let rest = groups_tail_text(gs.skip(1)) + seq![']'];
        assert(sv.subrange(i, j) =~= seq!['['] + g0 + rest + Seq::<char>::empty()
            + Seq::<char>::empty());
        lemma_split5_at(sv, i, seq!['['], g0, rest, Seq::<char>::empty(), Seq::<char>::empty());
        assert(sv.subrange(i, i + 1)[0] == sv[i]);
        reveal_strlit("{\"deployment_name\":\"");
        assert(g0[0] == '{');
        assert(sv.subrange(i + 1, i + 1 + g0.len() as int)[0] == sv[i + 1]);
    }
}

/// Parses a whole group list at position `i`.
fn parse_groups(s: &str, i: usize) -> (r: Option<(Vec<ShardGroup>, usize)>)
    requires
        i <= s@.len(),
    ensures
        (r matches Some(p) ==> i < p.1 <= s@.len() && groups_encodable(p.0.deep_view())
            && s@.subrange(i as int, p.1 as int) == groups_text(p.0.deep_view())),
        forall|gs: Seq<GroupView>, j: int|
            groups_encodable(gs) && i + groups_text(gs).len() == j <= s@.len() && s@.subrange(
                i as int,
                j,
            ) == groups_text(gs) ==> (r matches Some(p) && p.0.deep_view() == gs && p.1 == j),
{
    let n = s.unicode_len();
    let ghost sv = s@;
    if i >= n {
        proof {
            assert forall|gs: Seq<GroupView>, j: int|
                groups_encodable(gs) && i + groups_text(gs).len() == j <= sv.len() && sv.subrange(
                    i as int,
                    j,
                ) == groups_text(gs) implies false by {
                lemma_groups_positions(sv, i as int, gs, j);
            }
        }
        return None;
    }
    let c0 = s.get_char(i);
    if c0 != '[' {
        proof {
            assert forall|gs: Seq<GroupView>, j: int|
                groups_encodable(gs) && i + groups_text(gs).len() == j <= sv.len() && sv.subrange(
                    i as int,
                    j,
                ) == groups_text(gs) implies false by {
                lemma_groups_positions(sv, i as int, gs, j);
            }
        }
        return None;
    }
    if i + 1 >= n {
        proof {
            assert forall|gs: Seq<GroupView>, j: int|
                groups_encodable(gs) && i + groups_text(gs).len() == j <= sv.len() && sv.subrange(
                    i as int,
                    j,
                ) == groups_text(gs) implies false by {
                lemma_groups_positions(sv, i as int, gs, j);
            }
        }
        return None;
    }
    let c1 = s.get_char(i + 1);
    if c1 == ']' {
        let out: Vec<ShardGroup> = Vec::new();
        proof {
            assert(out.deep_view() =~= Seq::<GroupView>::empty());
            reveal_strlit("[]");
            assert(sv.subrange(i as int, i + 2) =~= "[]"@);
            assert forall|gs: Seq<GroupView>, j: int|
                groups_encodable(gs) && i + groups_text(gs).len() == j <= sv.len() && sv.subrange(
                    i as int,
                    j,
                ) == groups_text(gs) implies gs.len() == 0 && j == i + 2 by {
                lemma_groups_positions(sv, i as int, gs, j);
            }
        }
        return Some((out, i + 2));
    }
    let (g, j1) = match parse_group(s, i + 1) {
        Some(p) => p,
        None => {
            proof {
                assert forall|gs: Seq<GroupView>, j: int|
                    groups_encodable(gs) && i + groups_text(gs).len() == j <= sv.len()
                        && sv.subrange(i as int, j) == groups_text(gs) implies false by {
                    lemma_groups_positions(sv, i as int, gs, j);
                    assert(gs.len() > 0);
                    assert(group_encodable(gs[0]));
                    assert(sv.subrange(i + 1, i + 1 + group_text(gs[0]).len())
                        == group_text(gs[0]));
                }
            }
            return None;
        },
    };
    let mut out: Vec<ShardGroup> = Vec::new();
    out.push(g);
    let ghost mid = out.deep_view();
    proof {
        assert(mid =~= seq![g@]);
    }
    match parse_groups_tail(s, j1, &mut out) {
        Some(j2) => {
            proof {
                let post = out.deep_view();
                assert(post.take(1) == mid);
                assert(post.take(1)[0] == post[0]);
                assert(post[0] == mid[0]);
                assert(post[0] == g@);
                assert(post.len() >= 1);
                assert(post.skip(1) == post.skip(mid.len() as int));
                assert(groups_encodable(post)) by {
                    assert forall|k: int| 0 <= k < post.len() implies group_encodable(
                        #[trigger] post[k],
                    ) by {
                        if k >= 1 {
                            assert(post[k] == post.skip(1)[k - 1]);
                        }
                    }
                }
                assert(sv.subrange(i as int, i + 1) =~= seq!['[']);
                let lb = group_text(g@).len() as int;
                let lc = (groups_tail_text(post.skip(1)) + seq![']']).len() as int;
                assert(j1 == i + 1 + lb);
                assert(j2 == j1 + lc);
                assert(sv.subrange(i + 1 + lb + lc, i + 1 + lb + lc) =~= Seq::<char>::empty());
                lemma_join5_at(
                    sv,
                    i as int,
                    seq!['['],
                    group_text(g@),
                    groups_tail_text(post.skip(1)) + seq![']'],
                    Seq::<char>::empty(),
                    Seq::<char>::empty(),
                );
                assert(sv.subrange(i as int, j2 as int) =~= groups_text(post));
                assert forall|gs: Seq<GroupView>, j: int|
                    groups_encodable(gs) && i + groups_text(gs).len() == j <= sv.len()
                        && sv.subrange(i as int, j) == groups_text(gs) implies post == gs && j2
                    == j by {
                    lemma_groups_positions(sv, i as int, gs, j);
                    assert(gs.len() > 0);
                    assert(group_encodable(gs[0]));
                    assert(sv.subrange(i + 1, i + 1 + group_text(gs[0]).len())
                        == group_text(gs[0]));
                    assert(g@ == gs[0] && j1 == i + 1 + group_text(gs[0]).len());
                    assert(groups_encodable(gs.skip(1))) by {
                        assert forall|k: int|
                            0 <= k < gs.skip(1).len() implies group_encodable(
                            #[trigger] gs.skip(1)[k],
                        ) by {
                            assert(gs.skip(1)[k] == gs[k + 1]);
                        }
                    }
                    assert(sv.subrange(j1 as int, j) == groups_tail_text(gs.skip(1)) + seq![']']);
                    assert(post == mid + gs.skip(1));
                    assert(post =~= gs);
                }
            }
            Some((out, j2))
        },
        None => {
            proof {
                assert forall|gs: Seq<GroupView>, j: int|
                    groups_encodable(gs) && i + groups_text(gs).len() == j <= sv.len()
                        && sv.subrange(i as int, j) == groups_text(gs) implies false by {
                    lemma_groups_positions(sv, i as int, gs, j);
                    assert(gs.len() > 0);
                    assert(group_encodable(gs[0]));
                    assert(sv.subrange(i + 1, i + 1 + group_text(gs[0]).len())
                        == group_text(gs[0]));
                    assert(g@ == gs[0] && j1 == i + 1 + group_text(gs[0]).len());
                    assert(groups_encodable(gs.skip(1))) by {
                        assert forall|k: int|
                            0 <= k < gs.skip(1).len() implies group_encodable(
                            #[trigger] gs.skip(1)[k],
                        ) by {
                            assert(gs.skip(1)[k] == gs[k + 1]);
                        }
                    }
                    assert(sv.subrange(j1 as int, j) == groups_tail_text(gs.skip(1)) + seq![']']);
                }
            }
            None
        },
    }
}

/// Where each piece of a startup coordination broadcast lies.
proof fn lemma_coord_positions(
    sv: Seq<char>,
    cl: Seq<char>,
    m: nat,
    tot: nat,
    gs: Seq<GroupView>,
    ts: Seq<char>,
)
    requires
        json_string_ok(cl),
        json_string_ok(ts),
        groups_encodable(gs),
        sv == startup_coordination_text(cl, m, tot, gs, ts),
    ensures
        sv.len() == 63 + cl.len() as int + dec_digits(m).len() + 16 + groups_text(gs).len() + 14
            + ts.len() + 1 + 16 + dec_digits(tot).len() + 1,
        sv.subrange(0, 12) == "{\"cluster\":\""@,
        sv.subrange(12, 13 + cl.len() as int) == cl + seq!['"'],
        sv.subrange(
            13 + cl.len() as int,
            63 + cl.len() as int,
        ) == ",\"event\":\"startup_coordination\",\"max_concurrency\":"@,
        sv.subrange(63 + cl.len() as int, 63 + cl.len() as int + dec_digits(m).len()) == dec_digits(m),
        !is_digit(sv[63 + cl.len() as int + dec_digits(m).len()]),
        sv.subrange(
            63 + cl.len() as int + dec_digits(m).len(),
            79 + cl.len() as int + dec_digits(m).len(),
        ) == ",\"shard_groups\":"@,
        sv.subrange(
            79 + cl.len() as int + dec_digits(m).len(),
            79 + cl.len() as int + dec_digits(m).len() + groups_text(gs).len(),
        ) == groups_text(gs),
        sv.subrange(
            79 + cl.len() as int + dec_digits(m).len() + groups_text(gs).len(),
            93 + cl.len() as int + dec_digits(m).len() + groups_text(gs).len(),
        ) == ",\"timestamp\":\""@,
        sv.subrange(
            93 + cl.len() as int + dec_digits(m).len() + groups_text(gs).len(),
            94 + cl.len() as int + dec_digits(m).len() + groups_text(gs).len() + ts.len(),
        ) == ts + seq!['"'],
        sv.subrange(
            94 + cl.len() as int + dec_digits(m).len() + groups_text(gs).len() + ts.len(),
            110 + cl.len() as int + dec_digits(m).len() + groups_text(gs).len() + ts.len(),
        ) == ",\"total_shards\":"@,
        sv.subrange(
            110 + cl.len() as int + dec_digits(m).len() + groups_text(gs).len() + ts.len(),
            110 + cl.len() as int + dec_digits(m).len() + groups_text(gs).len() + ts.len() + dec_digits(
                tot,
            ).len(),
        ) == dec_digits(tot),
        sv.len() == 111 + cl.len() as int + dec_digits(m).len() + groups_text(gs).len() + ts.len()
            + dec_digits(tot).len(),
        !is_digit(
            sv[110 + cl.len() as int + dec_digits(m).len() + groups_text(gs).len() + ts.len()
                + dec_digits(tot).len()],
        ),
        sv.subrange(sv.len() - 1, sv.len() as int) == "}"@,
{
    reveal_strlit("{\"cluster\":\"");
    reveal_strlit(",\"event\":\"startup_coordination\",\"max_concurrency\":");
    reveal_strlit(",\"shard_groups\":");
    reveal_strlit(",\"timestamp\":\"");
    reveal_strlit(",\"total_shards\":");
    reveal_strlit("}");
    let c1 = "{\"cluster\":\""@;
    let c2 = ",\"event\":\"startup_coordination\",\"max_concurrency\":"@;
    let c3 = ",\"shard_groups\":"@;
    let c4 = ",\"timestamp\":\""@;
    let c5 = ",\"total_shards\":"@;
    let c6 = "}"@;
    let dm = dec_digits(m);
    let dt = dec_digits(tot);
    let g = groups_text(gs);
    let rest2 = c5 + dt + c6;
    let rest = c3 + g + c4 + (ts + seq!['"']) + rest2;
    assert(sv.subrange(0, sv.len() as int) =~= c1 + (cl + seq!['"']) + c2 + dm + rest);
    lemma_split5_at(sv, 0, c1, cl + seq!['"'], c2, dm, rest);
    let p4 = 63 + cl.len() as int + dm.len();
    assert(sv.subrange(p4, p4 + rest.len()) == rest);
    assert(rest =~= c3 + g + c4 + (ts + seq!['"']) + rest2);
    lemma_split5_at(sv, p4, c3, g, c4, ts + seq!['"'], rest2);
    let p8 = p4 + 16 + g.len() + 14 + ts.len() + 1;
    assert(sv.subrange(p8, p8 + rest2.len()) == rest2);
    assert(rest2 =~= c5 + dt + c6 + Seq::<char>::empty() + Seq::<char>::empty());
    assert(sv.subrange(p8 + rest2.len(), p8 + rest2.len()) =~= Seq::<char>::empty());
    lemma_split5_at(sv, p8, c5, dt, c6, Seq::<char>::empty(), Seq::<char>::empty());
    // the char after each number is not a digit
    assert(sv.subrange(p4, p4 + 16)[0] == sv[p4]);
    assert(sv[p4] == ',');
    let p10 = p8 + 16 + dt.len();
    assert(sv.subrange(p10, p10 + 1)[0] == sv[p10]);
    assert(sv[p10] == '}');
}

/// The front of a startup coordination broadcast, up to and including the
/// group list.
pub open spec fn coord_prefix_text(cl: Seq<char>, m: nat, gs: Seq<GroupView>) -> Seq<char> {
    "{\"cluster\":\""@ + (cl + seq!['"'])
        + ",\"event\":\"startup_coordination\",\"max_concurrency\":"@ + dec_digits(m)
        + ",\"shard_groups\":"@ + groups_text(gs)
}

/// The whole broadcast is its front followed by timestamp and total.
proof fn lemma_coord_split_prefix(
    cl: Seq<char>,
    m: nat,
    tot: nat,
    gs: Seq<GroupView>,
    ts: Seq<char>,
)
    ensures
        startup_coordination_text(cl, m, tot, gs, ts) == coord_prefix_text(cl, m, gs)
            + ",\"timestamp\":\""@ + (ts + seq!['"']) + (",\"total_shards\":"@ + dec_digits(tot)
            + "}"@),
{
    assert(startup_coordination_text(cl, m, tot, gs, ts) =~= coord_prefix_text(cl, m, gs)
        + ",\"timestamp\":\""@ + (ts + seq!['"']) + (",\"total_shards\":"@ + dec_digits(tot)
        + "}"@));
}

/// Parses the front of a startup coordination broadcast.
#[verifier::rlimit(100)]
fn decode_coord_prefix(s: &str) -> (r: Option<(String, u32, Vec<ShardGroup>, usize)>)
    ensures
        (r matches Some(p) ==> {
            &&& json_string_ok(p.0@)
            &&& groups_encodable(p.2.deep_view())
            &&& 0 < p.3 <= s@.len()
            &&& s@.subrange(0, p.3 as int) == coord_prefix_text(
                p.0@,
                p.1 as nat,
                p.2.deep_view(),
            )
        }),
        forall|cl: Seq<char>, m: nat, tot: nat, gs: Seq<GroupView>, ts: Seq<char>|
            m <= u32::MAX && tot <= u32::MAX && json_string_ok(cl) && json_string_ok(ts)
                && groups_encodable(gs) && s@ == startup_coordination_text(cl, m, tot, gs, ts)
                ==> (r matches Some(p) && p.0@ == cl && p.1 as nat == m && p.2.deep_view() == gs
                && p.3 == 79 + cl.len() + dec_digits(m).len() + groups_text(gs).len()),
{
    let n = s.unicode_len();
    let ghost sv = s@;
    proof {
        reveal_strlit("{\"cluster\":\"");
        reveal_strlit(",\"event\":\"startup_coordination\",\"max_concurrency\":");
        reveal_strlit(",\"shard_groups\":");
    }
    let i1 = match expect_lit(s, 0, "{\"cluster\":\"") {
        Some(j) => j,
        None => {
            proof {
                assert forall|cl: Seq<char>, m: nat, tot: nat, gs: Seq<GroupView>, ts: Seq<char>|
                    m <= u32::MAX && tot <= u32::MAX && json_string_ok(cl) && json_string_ok(ts)
                        && groups_encodable(gs) && sv == startup_coordination_text(
                        cl,
                        m,
                        tot,
                        gs,
                        ts,
                    ) implies false by {
                    lemma_coord_positions(sv, cl, m, tot, gs, ts);
                }
            }
            return None;
        },
    };
    let (cluster, i2) = match parse_string(s, i1) {
        Some(p) => p,
        None => {
            proof {
                assert forall|cl: Seq<char>, m: nat, tot: nat, gs: Seq<GroupView>, ts: Seq<char>|
                    m <= u32::MAX && tot <= u32::MAX && json_string_ok(cl) && json_string_ok(ts)
                        && groups_encodable(gs) && sv == startup_coordination_text(
                        cl,
                        m,
                        tot,
                        gs,
                        ts,
                    ) implies false by {
                    lemma_coord_positions(sv, cl, m, tot, gs, ts);
                    assert(i1 == 12);
                }
            }
            return None;
        },
    };
    let i3 = match expect_lit(s, i2, ",\"event\":\"startup_coordination\",\"max_concurrency\":") {
        Some(j) => j,
        None => {
            proof {
                assert forall|cl: Seq<char>, m: nat, tot: nat, gs: Seq<GroupView>, ts: Seq<char>|
                    m <= u32::MAX && tot <= u32::MAX && json_string_ok(cl) && json_string_ok(ts)
                        && groups_encodable(gs) && sv == startup_coordination_text(
                        cl,
                        m,
                        tot,
                        gs,
                        ts,
                    ) implies false by {
                    lemma_coord_positions(sv, cl, m, tot, gs, ts);
                    assert(i1 == 12);
                    assert(cluster@ == cl && i2 == 13 + cl.len());
                }
            }
            return None;
        },
    };
    let (max_concurrency, i4) = match parse_number(s, i3) {
        Some(p) => p,
        None => {
            proof {
                assert forall|cl: Seq<char>, m: nat, tot: nat, gs: Seq<GroupView>, ts: Seq<char>|
                    m <= u32::MAX && tot <= u32::MAX && json_string_ok(cl) && json_string_ok(ts)
                        && groups_encodable(gs) && sv == startup_coordination_text(
                        cl,
                        m,
                        tot,
                        gs,
                        ts,
                    ) implies false by {
                    lemma_coord_positions(sv, cl, m, tot, gs, ts);
                    assert(i1 == 12);
                    assert(cluster@ == cl && i2 == 13 + cl.len());
                    assert(i3 == 63 + cl.len());
                }
            }
            return None;
        },
    };
    let i5 = match expect_lit(s, i4, ",\"shard_groups\":") {
        Some(j) => j,
        None => {
            proof {
                assert forall|cl: Seq<char>, m: nat, tot: nat, gs: Seq<GroupView>, ts: Seq<char>|
                    m <= u32::MAX && tot <= u32::MAX && json_string_ok(cl) && json_string_ok(ts)
                        && groups_encodable(gs) && sv == startup_coordination_text(
                        cl,
                        m,
                        tot,
                        gs,
                        ts,
                    ) implies false by {
                    lemma_coord_positions(sv, cl, m, tot, gs, ts);
                    assert(i1 == 12);
                    assert(cluster@ == cl && i2 == 13 + cl.len());
                    assert(i3 == 63 + cl.len());
                    assert(max_concurrency as nat == m && i4 == i3 + dec_digits(m).len());
                }
            }
            return None;
        },
    };
    let (shard_groups, i6) = match parse_groups(s, i5) {
        Some(p) => p,
        None => {
            proof {
                assert forall|cl: Seq<char>, m: nat, tot: nat, gs: Seq<GroupView>, ts: Seq<char>|
                    m <= u32::MAX && tot <= u32::MAX && json_string_ok(cl) && json_string_ok(ts)
                        && groups_encodable(gs) && sv == startup_coordination_text(
                        cl,
                        m,
                        tot,
                        gs,
                        ts,
                    ) implies false by {
                    lemma_coord_positions(sv, cl, m, tot, gs, ts);
                    assert(i1 == 12);
                    assert(cluster@ == cl && i2 == 13 + cl.len());
                    assert(i3 == 63 + cl.len());
                    assert(max_concurrency as nat == m && i4 == i3 + dec_digits(m).len());
                    assert(i5 == i4 + 16);
                }
            }
            return None;
        },
    };
    proof {
        let c1 = "{\"cluster\":\""@;
        let c2 = ",\"event\":\"startup_coordination\",\"max_concurrency\":"@;
        let c3 = ",\"shard_groups\":"@;
        let dm = dec_digits(max_concurrency as nat);
        let g = groups_text(shard_groups.deep_view());
        assert(sv.subrange(i1 as int, i2 as int) =~= cluster@ + seq!['"']);
        assert(sv.subrange(i6 as int, i6 as int) =~= Seq::<char>::empty());
        lemma_join5_at(sv, i4 as int, c3, g, Seq::<char>::empty(), Seq::<char>::empty(), Seq::<char>::empty());
        assert(sv.subrange(i4 as int, i6 as int) =~= c3 + g);
        lemma_join5_at(sv, 0, c1, cluster@ + seq!['"'], c2, dm, c3 + g);
        assert(sv.subrange(0, i6 as int) =~= coord_prefix_text(
            cluster@,
            max_concurrency as nat,
            shard_groups.deep_view(),
        ));
        assert forall|cl: Seq<char>, m: nat, tot: nat, gs: Seq<GroupView>, ts: Seq<char>|
            m <= u32::MAX && tot <= u32::MAX && json_string_ok(cl) && json_string_ok(ts)
                && groups_encodable(gs) && sv == startup_coordination_text(
                cl,
                m,
                tot,
                gs,
                ts,
            ) implies cluster@ == cl && max_concurrency as nat == m && shard_groups.deep_view()
            == gs && i6 == 79 + cl.len() + dec_digits(m).len() + groups_text(gs).len() by {
            lemma_coord_positions(sv, cl, m, tot, gs, ts);
            assert(i1 == 12);
            assert(cluster@ == cl && i2 == 13 + cl.len());
            assert(i3 == 63 + cl.len());
            assert(max_concurrency as nat == m && i4 == i3 + dec_digits(m).len());
            assert(i5 == i4 + 16);
            assert(shard_groups.deep_view() == gs && i6 == i5 + groups_text(gs).len());
        }
    }
    Some((cluster, max_concurrency, shard_groups, i6))
}

/// Decodes a startup coordination broadcast; accepts exactly the texts
/// `encode_startup_coordination` writes and nothing else.
#[verifier::rlimit(100)]
pub fn decode_startup_coordination(s: &str) -> (r: Option<StartupCoordination>)
    ensures
        (r matches Some(msg) ==> json_string_ok(msg.cluster@) && json_string_ok(msg.timestamp@)
            && groups_encodable(msg.shard_groups.deep_view()) && s@ == startup_coordination_text(
            msg.cluster@,
            msg.max_concurrency as nat,
            msg.total_shards as nat,
            msg.shard_groups.deep_view(),
            msg.timestamp@,
        )),
        forall|cl: Seq<char>, m: nat, tot: nat, gs: Seq<GroupView>, ts: Seq<char>|
            m <= u32::MAX && tot <= u32::MAX && json_string_ok(cl) && json_string_ok(ts)
                && groups_encodable(gs) && s@ == startup_coordination_text(cl, m, tot, gs, ts)
                ==> (r matches Some(msg) && msg.cluster@ == cl && msg.max_concurrency as nat == m
                && msg.total_shards as nat == tot && msg.shard_groups.deep_view() == gs
                && msg.timestamp@ == ts),
{
    let n = s.unicode_len();
    let ghost sv = s@;
    proof {
        reveal_strlit(",\"timestamp\":\"");
        reveal_strlit(",\"total_shards\":");
        reveal_strlit("}");
    }
    let (cluster, max_concurrency, shard_groups, i6) = match decode_coord_prefix(s) {
        Some(p) => p,
        None => {
            return None;
        },
    };
    let i7 = match expect_lit(s, i6, ",\"timestamp\":\"") {
        Some(j) => j,
        None => {
            proof {
                assert forall|cl: Seq<char>, m: nat, tot: nat, gs: Seq<GroupView>, ts: Seq<char>|
                    m <= u32::MAX && tot <= u32::MAX && json_string_ok(cl) && json_string_ok(ts)
                        && groups_encodable(gs) && sv == startup_coordination_text(
                        cl,
                        m,
                        tot,
                        gs,
                        ts,
                    ) implies false by {
                    lemma_coord_positions(sv, cl, m, tot, gs, ts);
                    assert(cluster@ == cl && max_concurrency as nat == m
                        && shard_groups.deep_view() == gs && i6 == 79 + cl.len() + dec_digits(
                        m,
                    ).len() + groups_text(gs).len());
                }
            }
            return None;
        },
    };
    let (timestamp, i8) = match parse_string(s, i7) {
        Some(p) => p,
        None => {
            proof {
                assert forall|cl: Seq<char>, m: nat, tot: nat, gs: Seq<GroupView>, ts: Seq<char>|
                    m <= u32::MAX && tot <= u32::MAX && json_string_ok(cl) && json_string_ok(ts)
                        && groups_encodable(gs) && sv == startup_coordination_text(
                        cl,
                        m,
                        tot,
                        gs,
                        ts,
                    ) implies false by {
                    lemma_coord_positions(sv, cl, m, tot, gs, ts);
                    assert(cluster@ == cl && max_concurrency as nat == m
                        && shard_groups.deep_view() == gs && i6 == 79 + cl.len() + dec_digits(
                        m,
                    ).len() + groups_text(gs).len());
                    assert(i7 == i6 + 14);
                }
            }
            return None;
        },
    };
    let i9 = match expect_lit(s, i8, ",\"total_shards\":") {
        Some(j) => j,
        None => {
            proof {
                assert forall|cl: Seq<char>, m: nat, tot: nat, gs: Seq<GroupView>, ts: Seq<char>|
                    m <= u32::MAX && tot <= u32::MAX && json_string_ok(cl) && json_string_ok(ts)
                        && groups_encodable(gs) && sv == startup_coordination_text(
                        cl,
                        m,
                        tot,
                        gs,
                        ts,
                    ) implies false by {
                    lemma_coord_positions(sv, cl, m, tot, gs, ts);
                    assert(cluster@ == cl && max_concurrency as nat == m
                        && shard_groups.deep_view() == gs && i6 == 79 + cl.len() + dec_digits(
                        m,
                    ).len() + groups_text(gs).len());
                    assert(i7 == i6 + 14);
                    assert(timestamp@ == ts && i8 == i7 + ts.len() + 1);
                }
            }
            return None;
        },
    };
    let (total_shards, i10) = match parse_number(s, i9) {
        Some(p) => p,
        None => {
            proof {
                assert forall|cl: Seq<char>, m: nat, tot: nat, gs: Seq<GroupView>, ts: Seq<char>|
                    m <= u32::MAX && tot <= u32::MAX && json_string_ok(cl) && json_string_ok(ts)
                        && groups_encodable(gs) && sv == startup_coordination_text(
                        cl,
                        m,
                        tot,
                        gs,
                        ts,
                    ) implies false by {
                    lemma_coord_positions(sv, cl, m, tot, gs, ts);
                    assert(cluster@ == cl && max_concurrency as nat == m
                        && shard_groups.deep_view() == gs && i6 == 79 + cl.len() + dec_digits(
                        m,
                    ).len() + groups_text(gs).len());
                    assert(i7 == i6 + 14);
                    assert(timestamp@ == ts && i8 == i7 + ts.len() + 1);
                    assert(i9 == i8 + 16);
                }
            }
            return None;
        },
    };
    let i11 = match expect_lit(s, i10, "}") {
        Some(j) => j,
        None => {
            proof {
                assert forall|cl: Seq<char>, m: nat, tot: nat, gs: Seq<GroupView>, ts: Seq<char>|
                    m <= u32::MAX && tot <= u32::MAX && json_string_ok(cl) && json_string_ok(ts)
                        && groups_encodable(gs) && sv == startup_coordination_text(
                        cl,
                        m,
                        tot,
                        gs,
                        ts,
                    ) implies false by {
                    lemma_coord_positions(sv, cl, m, tot, gs, ts);
                    assert(cluster@ == cl && max_concurrency as nat == m
                        && shard_groups.deep_view() == gs && i6 == 79 + cl.len() + dec_digits(
                        m,
                    ).len() + groups_text(gs).len());
                    assert(i7 == i6 + 14);
                    assert(timestamp@ == ts && i8 == i7 + ts.len() + 1);
                    assert(i9 == i8 + 16);
                    assert(total_shards as nat == tot && i10 == i9 + dec_digits(tot).len());
                }
            }
            return None;
        },
    };
    if i11 != n {
        proof {
            assert forall|cl: Seq<char>, m: nat, tot: nat, gs: Seq<GroupView>, ts: Seq<char>|
                m <= u32::MAX && tot <= u32::MAX && json_string_ok(cl) && json_string_ok(ts)
                    && groups_encodable(gs) && sv == startup_coordination_text(
                    cl,
                    m,
                    tot,
                    gs,
                    ts,
                ) implies false by {
                lemma_coord_positions(sv, cl, m, tot, gs, ts);
                assert(cluster@ == cl && max_concurrency as nat == m && shard_groups.deep_view()
                    == gs && i6 == 79 + cl.len() + dec_digits(m).len() + groups_text(gs).len());
                assert(i7 == i6 + 14);
                assert(timestamp@ == ts && i8 == i7 + ts.len() + 1);
                assert(i9 == i8 + 16);
                assert(total_shards as nat == tot && i10 == i9 + dec_digits(tot).len());
                assert(i11 == i10 + 1);
            }
        }
        return None;
    }
    let msg = StartupCoordination {
        cluster,
        max_concurrency,
        total_shards,
        shard_groups,
        timestamp,
    };
    proof {
        let c4 = ",\"timestamp\":\""@;
        let c5 = ",\"total_shards\":"@;
        let c6 = "}"@;
        let dt = dec_digits(msg.total_shards as nat);
        assert(sv.subrange(i7 as int, i8 as int) =~= msg.timestamp@ + seq!['"']);
        assert(i10 == i9 + dt.len());
        assert(i11 == i10 + 1);
        lemma_join5_at(
            sv,
            i6 as int,
            c4,
            msg.timestamp@ + seq!['"'],
            c5,
            dt,
            c6,
        );
        lemma_coord_split_prefix(
            msg.cluster@,
            msg.max_concurrency as nat,
            msg.total_shards as nat,
            msg.shard_groups.deep_view(),
            msg.timestamp@,
        );
        assert(sv =~= startup_coordination_text(
            msg.cluster@,
            msg.max_concurrency as nat,
            msg.total_shards as nat,
            msg.shard_groups.deep_view(),
            msg.timestamp@,
        ));
        assert forall|cl: Seq<char>, m: nat, tot: nat, gs: Seq<GroupView>, ts: Seq<char>|
            m <= u32::MAX && tot <= u32::MAX && json_string_ok(cl) && json_string_ok(ts)
                && groups_encodable(gs) && sv == startup_coordination_text(
                cl,
                m,
                tot,
                gs,
                ts,
            ) implies msg.cluster@ == cl && msg.max_concurrency as nat == m
            && msg.total_shards as nat == tot && msg.shard_groups.deep_view() == gs
            && msg.timestamp@ == ts by {
            lemma_coord_positions(sv, cl, m, tot, gs, ts);
            assert(msg.cluster@ == cl && msg.max_concurrency as nat == m
                && msg.shard_groups.deep_view() == gs && i6 == 79 + cl.len() + dec_digits(
                m,
            ).len() + groups_text(gs).len());
            assert(i7 == i6 + 14);
            assert(msg.timestamp@ == ts && i8 == i7 + ts.len() + 1);
            assert(i9 == i8 + 16);
            assert(msg.total_shards as nat == tot);
        }
    }
    Some(msg)
}

} // verus!
