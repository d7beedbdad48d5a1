//! The two snapshot formats and their codecs.
//!
//! Todos are kept as one object of quoted decimal keys and arrays of quoted
//! strings, `{"111":["buy milk","call bob"]}`; the reader also accepts
//! whitespace between tokens. Users are kept one decimal id per line. Both
//! readers invert the writers exactly, which is proved here.

use vstd::prelude::*;

use crate::num::{dec_int, is_digit, parse_int_spec};

verus! {

pub const QUOTE: u8 = 34;
pub const BSLASH: u8 = 92;
pub const LBRACE: u8 = 123;
pub const RBRACE: u8 = 125;
pub const LBRACK: u8 = 91;
pub const RBRACK: u8 = 93;
pub const COMMA: u8 = 44;
pub const COLON: u8 = 58;
pub const NL: u8 = 10;

// ---------------------------------------------------------------- writers

/// A task byte with the two structural bytes escaped.
pub open spec fn esc(t: Seq<u8>) -> Seq<u8>
    decreases t.len(),
{
    if t.len() == 0 {
        Seq::empty()
    } else if t[0] == QUOTE || t[0] == BSLASH {
        seq![BSLASH, t[0]] + esc(t.skip(1))
    } else {
        seq![t[0]] + esc(t.skip(1))
    }
}

pub open spec fn enc_str(t: Seq<u8>) -> Seq<u8> {
    seq![QUOTE] + esc(t) + seq![QUOTE]
}

pub open spec fn enc_tasks(ts: Seq<Seq<u8>>) -> Seq<u8>
    decreases ts.len(),
{
    if ts.len() == 0 {
        Seq::empty()
    } else if ts.len() == 1 {
        enc_str(ts[0])
    } else {
        enc_str(ts[0]) + seq![COMMA] + enc_tasks(ts.skip(1))
    }
}

pub open spec fn enc_list(ts: Seq<Seq<u8>>) -> Seq<u8> {
    seq![LBRACK] + enc_tasks(ts) + seq![RBRACK]
}

pub open spec fn enc_row(row: (i64, Seq<Seq<u8>>)) -> Seq<u8> {
    seq![QUOTE] + dec_int(row.0 as int) + seq![QUOTE, COLON] + enc_list(row.1)
}

pub open spec fn enc_rows(rows: Seq<(i64, Seq<Seq<u8>>)>) -> Seq<u8>
    decreases rows.len(),
{
    if rows.len() == 0 {
        Seq::empty()
    } else if rows.len() == 1 {
        enc_row(rows[0])
    } else {
        enc_row(rows[0]) + seq![COMMA] + enc_rows(rows.skip(1))
    }
}

/// The whole todo snapshot.
pub open spec fn enc_todos(rows: Seq<(i64, Seq<Seq<u8>>)>) -> Seq<u8> {
    seq![LBRACE] + enc_rows(rows) + seq![RBRACE]
}

pub open spec fn enc_users(ids: Seq<i64>) -> Seq<u8>
    decreases ids.len(),
{
    if ids.len() == 0 {
        Seq::empty()
    } else if ids.len() == 1 {
        dec_int(ids[0] as int)
    } else {
        dec_int(ids[0] as int) + seq![NL] + enc_users(ids.skip(1))
    }
}

// ---------------------------------------------------------------- readers

pub open spec fn is_ws(b: u8) -> bool {
    b == 32 || b == 9 || b == 10 || b == 13
}

pub open spec fn skip_ws(s: Seq<u8>) -> Seq<u8>
    decreases s.len(),
{
    if s.len() > 0 && is_ws(s[0]) {
        skip_ws(s.skip(1))
    } else {
        s
    }
}

/// Reads a string body after its opening quote: bytes until an unescaped
/// closing quote, undoing the two escapes. Yields the content and what
/// follows the closing quote.
pub open spec fn p_strbody(s: Seq<u8>) -> Option<(Seq<u8>, Seq<u8>)>
    decreases s.len(),
{
    if s.len() == 0 {
        None
    } else if s[0] == QUOTE {
        Some((Seq::empty(), s.skip(1)))
    } else if s[0] == BSLASH {
        if s.len() >= 2 && (s[1] == QUOTE || s[1] == BSLASH) {
            match p_strbody(s.skip(2)) {
                Some(pr) => Some((seq![s[1]] + pr.0, pr.1)),
                None => None,
            }
        } else {
            None
        }
    } else {
        match p_strbody(s.skip(1)) {
            Some(pr) => Some((seq![s[0]] + pr.0, pr.1)),
            None => None,
        }
    }
}

pub open spec fn p_str(s: Seq<u8>) -> Option<(Seq<u8>, Seq<u8>)> {
    if s.len() > 0 && s[0] == QUOTE {
        p_strbody(s.skip(1))
    } else {
        None
    }
}

/// Reads the items of a non-empty array, the closing bracket included.
pub open spec fn p_tasks(s: Seq<u8>) -> Option<(Seq<Seq<u8>>, Seq<u8>)>
    decreases s.len(),
{
    match p_str(s) {
        None => None,
        Some(pr) => {
            let r1 = skip_ws(pr.1);
            if r1.len() > 0 && r1[0] == COMMA {
                let r2 = skip_ws(r1.skip(1));
                // a read suffix is always shorter; the check only
                // discharges termination
                if r2.len() < s.len() {
                    match p_tasks(r2) {
                        Some(qr) => Some((seq![pr.0] + qr.0, qr.1)),
                        None => None,
                    }
                } else {
                    None
                }
            } else if r1.len() > 0 && r1[0] == RBRACK {
                Some((seq![pr.0], r1.skip(1)))
            } else {
                None
            }
        },
    }
}

pub open spec fn p_list(s: Seq<u8>) -> Option<(Seq<Seq<u8>>, Seq<u8>)> {
    if s.len() > 0 && s[0] == LBRACK {
        let r = skip_ws(s.skip(1));
        if r.len() > 0 && r[0] == RBRACK {
            Some((Seq::empty(), r.skip(1)))
        } else {
            p_tasks(r)
        }
    } else {
        None
    }
}

/// Reads a quoted decimal chat id.
pub open spec fn p_key(s: Seq<u8>) -> Option<(i64, Seq<u8>)> {
    if s.len() > 0 && s[0] == QUOTE {
        match p_strbody(s.skip(1)) {
            Some(pr) => match parse_int_spec(pr.0) {
                Some(id) => Some((id, pr.1)),
                None => None,
            },
            None => None,
        }
    } else {
        None
    }
}

/// Reads the rows of a non-empty object, the closing brace included.
pub open spec fn p_rows(s: Seq<u8>) -> Option<(Seq<(i64, Seq<Seq<u8>>)>, Seq<u8>)>
    decreases s.len(),
{
    match p_key(s) {
        None => None,
        Some(kr) => {
            let r1 = skip_ws(kr.1);
            if r1.len() > 0 && r1[0] == COLON {
                let r2 = skip_ws(r1.skip(1));
                match p_list(r2) {
                    None => None,
                    Some(lr) => {
                        let r3 = skip_ws(lr.1);
                        if r3.len() > 0 && r3[0] == COMMA {
                            let r4 = skip_ws(r3.skip(1));
                            // shorter by construction; termination only
                            if r4.len() < s.len() {
                                match p_rows(r4) {
                                    Some(rr) => Some((seq![(kr.0, lr.0)] + rr.0, rr.1)),
                                    None => None,
                                }
                            } else {
                                None
                            }
                        } else if r3.len() > 0 && r3[0] == RBRACE {
                            Some((seq![(kr.0, lr.0)], r3.skip(1)))
                        } else {
                            None
                        }
                    },
                }
            } else {
                None
            }
        },
    }
}

/// What a whole todo snapshot denotes, or nothing when malformed.
pub open spec fn p_todos(s: Seq<u8>) -> Option<Seq<(i64, Seq<Seq<u8>>)>> {
    let r = skip_ws(s);
    if r.len() > 0 && r[0] == LBRACE {
        let r1 = skip_ws(r.skip(1));
        if r1.len() > 0 && r1[0] == RBRACE {
            if skip_ws(r1.skip(1)).len() == 0 {
                Some(Seq::empty())
            } else {
                None
            }
        } else {
            match p_rows(r1) {
                Some(rr) => {
                    if skip_ws(rr.1).len() == 0 {
                        Some(rr.0)
                    } else {
                        None
                    }
                },
                None => None,
            }
        }
    } else {
        None
    }
}

/// Length of the first line of `s`.
pub open spec fn line_len(s: Seq<u8>) -> int
    decreases s.len(),
{
    if s.len() == 0 || s[0] == NL {
        0
    } else {
        1 + line_len(s.skip(1))
    }
}

pub proof fn lemma_line_len(s: Seq<u8>)
    ensures
        0 <= line_len(s) <= s.len(),
        line_len(s) < s.len() ==> s[line_len(s)] == NL,
        forall|i: int| 0 <= i < line_len(s) ==> s[i] != NL,
    decreases s.len(),
{
    if !(s.len() == 0 || s[0] == NL) {
        lemma_line_len(s.skip(1));
        assert forall|i: int| 0 <= i < line_len(s) implies s[i] != NL by {
            if i > 0 {
                assert(s.skip(1)[i - 1] == s[i]);
            }
        }
        if line_len(s) < s.len() {
            assert(s.skip(1)[line_len(s) - 1] == s[line_len(s)]);
        }
    }
}

/// What a whole users snapshot denotes: one id per line, nothing when any
/// line is not a decimal id.
pub open spec fn p_users(s: Seq<u8>) -> Option<Seq<i64>>
    decreases s.len(),
{
    if s.len() == 0 {
        Some(Seq::empty())
    } else {
        let n = line_len(s);
        match parse_int_spec(s.take(n)) {
            None => None,
            Some(id) => {
                if n == s.len() {
                    Some(seq![id])
                } else if 0 <= n < s.len() {  // always true; termination only
                    match p_users(s.skip(n + 1)) {
                        Some(ids) => Some(seq![id] + ids),
                        None => None,
                    }
                } else {
                    None
                }
            },
        }
    }
}

// ------------------------------------------------------------ round trips

/// Escaped bytes never start with a quote, so a reader at an escaped body
/// cannot stop early.
proof fn lemma_p_strbody_of_esc(t: Seq<u8>, rest: Seq<u8>)
    ensures
        p_strbody(esc(t) + seq![QUOTE] + rest) == Some((t, rest)),
    decreases t.len(),
{
    let s = esc(t) + seq![QUOTE] + rest;
    if t.len() == 0 {
        assert(esc(t) == Seq::<u8>::empty());
        assert(s =~= seq![QUOTE] + rest);
        assert(s[0] == QUOTE);
        assert(s.skip(1) =~= rest);
    } else {
        lemma_p_strbody_of_esc(t.skip(1), rest);
        if t[0] == QUOTE || t[0] == BSLASH {
            assert(esc(t) == seq![BSLASH, t[0]] + esc(t.skip(1)));
            assert(s[0] == BSLASH);
            assert(s[1] == t[0]);
            assert(s.len() >= 2);
            assert(s.skip(2) =~= esc(t.skip(1)) + seq![QUOTE] + rest);
            assert(seq![s[1]] + t.skip(1) =~= t);
        } else {
            assert(esc(t) == seq![t[0]] + esc(t.skip(1)));
            assert(s[0] == t[0]);
            assert(s[0] != QUOTE && s[0] != BSLASH);
            assert(s.skip(1) =~= esc(t.skip(1)) + seq![QUOTE] + rest);
            assert(seq![s[0]] + t.skip(1) =~= t);
        }
    }
}

/// A decimal id needs no escapes.
proof fn lemma_esc_plain(t: Seq<u8>)
    requires
        forall|i: int| 0 <= i < t.len() ==> (#[trigger] t[i]) != QUOTE && t[i] != BSLASH,
    ensures
        esc(t) == t,
    decreases t.len(),
{
    if t.len() > 0 {
        assert forall|i: int|
            0 <= i < t.skip(1).len() implies (#[trigger] t.skip(1)[i]) != QUOTE && t.skip(1)[i]
            != BSLASH by {
            assert(t.skip(1)[i] == t[i + 1]);
        }
        lemma_esc_plain(t.skip(1));
        assert(esc(t) =~= t);
    }
}

/// Reading a written key gives the id back.
proof fn lemma_p_key_of_enc(id: i64, rest: Seq<u8>)
    ensures
        p_key(seq![QUOTE] + dec_int(id as int) + seq![QUOTE] + rest) == Some((id, rest)),
{
    let d = dec_int(id as int);
    let s = seq![QUOTE] + d + seq![QUOTE] + rest;
    crate::num::lemma_dec_int_bytes(id);
    assert forall|i: int| 0 <= i < d.len() implies (#[trigger] d[i]) != QUOTE && d[i]
        != BSLASH by {}
    lemma_esc_plain(d);
    assert(s[0] == QUOTE);
    assert(s.skip(1) =~= esc(d) + seq![QUOTE] + rest);
    lemma_p_strbody_of_esc(d, rest);
    crate::num::lemma_parse_of_dec_int(id);
}

proof fn lemma_skip_ws_noop(s: Seq<u8>)
    requires
        s.len() == 0 || !is_ws(s[0]),
    ensures
        skip_ws(s) == s,
{
}

/// Reading the written items of a non-empty task list gives them back.
proof fn lemma_p_tasks_of_enc(ts: Seq<Seq<u8>>, rest: Seq<u8>)
    requires
        ts.len() >= 1,
    ensures
        p_tasks(enc_tasks(ts) + seq![RBRACK] + rest) == Some((ts, rest)),
    decreases ts.len(),
{
    let s = enc_tasks(ts) + seq![RBRACK] + rest;
    if ts.len() == 1 {
        assert(enc_tasks(ts) == enc_str(ts[0]));
        assert(s[0] == QUOTE);
        assert(s.skip(1) =~= esc(ts[0]) + seq![QUOTE] + (seq![RBRACK] + rest));
        lemma_p_strbody_of_esc(ts[0], seq![RBRACK] + rest);
        let r1 = seq![RBRACK] + rest;
        lemma_skip_ws_noop(r1);
        assert(r1[0] == RBRACK);
        assert(r1.skip(1) =~= rest);
        assert(seq![ts[0]] =~= ts);
    } else {
        let tail = enc_tasks(ts.skip(1)) + seq![RBRACK] + rest;
        assert(enc_tasks(ts) == enc_str(ts[0]) + seq![COMMA] + enc_tasks(ts.skip(1)));
        assert(s[0] == QUOTE);
        assert(s.skip(1) =~= esc(ts[0]) + seq![QUOTE] + (seq![COMMA] + tail));
        lemma_p_strbody_of_esc(ts[0], seq![COMMA] + tail);
        let r1 = seq![COMMA] + tail;
        lemma_skip_ws_noop(r1);
        assert(r1[0] == COMMA);
        assert(r1.skip(1) =~= tail);
        assert(enc_tasks(ts.skip(1)).len() >= 2) by {
            if ts.skip(1).len() == 1 {
                assert(enc_tasks(ts.skip(1)) == enc_str(ts.skip(1)[0]));
            } else {
                assert(enc_tasks(ts.skip(1)) == enc_str(ts.skip(1)[0]) + seq![COMMA] + enc_tasks(
                    ts.skip(1).skip(1),
                ));
            }
        }
        assert(tail[0] == QUOTE);
        lemma_skip_ws_noop(tail);
        assert(tail.len() < s.len());
        lemma_p_tasks_of_enc(ts.skip(1), rest);
        assert(seq![ts[0]] + ts.skip(1) =~= ts);
    }
}

/// Reading a written task list gives it back, the empty list included.
proof fn lemma_p_list_of_enc(ts: Seq<Seq<u8>>, rest: Seq<u8>)
    ensures
        p_list(enc_list(ts) + rest) == Some((ts, rest)),
{
    let s = enc_list(ts) + rest;
    assert(s[0] == LBRACK);
    if ts.len() == 0 {
        assert(s.skip(1) =~= seq![RBRACK] + rest);
        lemma_skip_ws_noop(seq![RBRACK] + rest);
        assert((seq![RBRACK] + rest).skip(1) =~= rest);
        assert(p_list(s) == Some((Seq::<Seq<u8>>::empty(), rest)));
        assert(Seq::<Seq<u8>>::empty() =~= ts);
    } else {
        assert(s.skip(1) =~= enc_tasks(ts) + seq![RBRACK] + rest);
        assert(enc_tasks(ts).len() >= 2) by {
            if ts.len() == 1 {
                assert(enc_tasks(ts) == enc_str(ts[0]));
            } else {
                assert(enc_tasks(ts) == enc_str(ts[0]) + seq![COMMA] + enc_tasks(ts.skip(1)));
            }
        }
        assert((enc_tasks(ts) + seq![RBRACK] + rest)[0] == QUOTE);
        lemma_skip_ws_noop(enc_tasks(ts) + seq![RBRACK] + rest);
        lemma_p_tasks_of_enc(ts, rest);
    }
}

/// Reading the written rows of a non-empty store gives them back.
proof fn lemma_p_rows_of_enc(rows: Seq<(i64, Seq<Seq<u8>>)>, rest: Seq<u8>)
    requires
        rows.len() >= 1,
    ensures
        p_rows(enc_rows(rows) + seq![RBRACE] + rest) == Some((rows, rest)),
    decreases rows.len(),
{
    let s = enc_rows(rows) + seq![RBRACE] + rest;
    let row = rows[0];
    let d = dec_int(row.0 as int);
    if rows.len() == 1 {
        assert(enc_rows(rows) == enc_row(row));
        let after_key = seq![COLON] + enc_list(row.1) + (seq![RBRACE] + rest);
        assert(s =~= seq![QUOTE] + d + seq![QUOTE] + after_key);
        lemma_p_key_of_enc(row.0, after_key);
        lemma_skip_ws_noop(after_key);
        assert(after_key[0] == COLON);
        let r2 = after_key.skip(1);
        assert(r2 =~= enc_list(row.1) + (seq![RBRACE] + rest));
        assert(r2[0] == LBRACK);
        lemma_skip_ws_noop(r2);
        lemma_p_list_of_enc(row.1, seq![RBRACE] + rest);
        let r3 = seq![RBRACE] + rest;
        lemma_skip_ws_noop(r3);
        assert(r3[0] == RBRACE);
        assert(r3.skip(1) =~= rest);
        assert(seq![(row.0, row.1)] =~= rows);
    } else {
        let tail = enc_rows(rows.skip(1)) + seq![RBRACE] + rest;
        assert(enc_rows(rows) == enc_row(row) + seq![COMMA] + enc_rows(rows.skip(1)));
        let after_key = seq![COLON] + enc_list(row.1) + (seq![COMMA] + tail);
        assert(s =~= seq![QUOTE] + d + seq![QUOTE] + after_key);
        lemma_p_key_of_enc(row.0, after_key);
        lemma_skip_ws_noop(after_key);
        assert(after_key[0] == COLON);
        let r2 = after_key.skip(1);
        assert(r2 =~= enc_list(row.1) + (seq![COMMA] + tail));
        assert(r2[0] == LBRACK);
        lemma_skip_ws_noop(r2);
        lemma_p_list_of_enc(row.1, seq![COMMA] + tail);
        let r3 = seq![COMMA] + tail;
        lemma_skip_ws_noop(r3);
        assert(r3[0] == COMMA);
        assert(r3.skip(1) =~= tail);
        assert(enc_rows(rows.skip(1)).len() >= 1) by {
            if rows.skip(1).len() == 1 {
                assert(enc_rows(rows.skip(1)) == enc_row(rows.skip(1)[0]));
                assert(enc_row(rows.skip(1)[0]).len() >= 1);
            } else {
                assert(enc_rows(rows.skip(1)) == enc_row(rows.skip(1)[0]) + seq![COMMA] + enc_rows(
                    rows.skip(1).skip(1),
                ));
            }
        }
        assert(tail[0] == QUOTE) by {
            assert(enc_rows(rows.skip(1))[0] == enc_row(rows.skip(1)[0])[0]) by {
                if rows.skip(1).len() > 1 {
                    assert(enc_rows(rows.skip(1)) == enc_row(rows.skip(1)[0]) + seq![COMMA]
                        + enc_rows(rows.skip(1).skip(1)));
                }
            }
            assert(enc_row(rows.skip(1)[0])[0] == QUOTE);
        }
        lemma_skip_ws_noop(tail);
        assert(tail.len() < s.len());
        lemma_p_rows_of_enc(rows.skip(1), rest);
        assert(seq![(row.0, row.1)] + rows.skip(1) =~= rows);
    }
}

/// The todo snapshot round trip: reading a written store yields exactly the
/// written rows.
pub proof fn lemma_todos_round_trip(rows: Seq<(i64, Seq<Seq<u8>>)>)
    ensures
        p_todos(enc_todos(rows)) == Some(rows),
{
    let s = enc_todos(rows);
    assert(s[0] == LBRACE);
    lemma_skip_ws_noop(s);
    if rows.len() == 0 {
        assert(s =~= seq![LBRACE, RBRACE]);
        assert(s.skip(1) =~= seq![RBRACE]);
        lemma_skip_ws_noop(seq![RBRACE]);
        assert(seq![RBRACE].skip(1) =~= Seq::<u8>::empty());
        lemma_skip_ws_noop(Seq::<u8>::empty());
        assert(p_todos(s) == Some(Seq::<(i64, Seq<Seq<u8>>)>::empty()));
        assert(Seq::<(i64, Seq<Seq<u8>>)>::empty() =~= rows);
    } else {
        let body = enc_rows(rows) + seq![RBRACE] + Seq::<u8>::empty();
        assert(s.skip(1) =~= body);
        assert(enc_rows(rows)[0] == enc_row(rows[0])[0]) by {
            if rows.len() > 1 {
                assert(enc_rows(rows) == enc_row(rows[0]) + seq![COMMA] + enc_rows(rows.skip(1)));
            }
        }
        assert(body[0] == QUOTE);
        lemma_skip_ws_noop(body);
        lemma_p_rows_of_enc(rows, Seq::<u8>::empty());
        lemma_skip_ws_noop(Seq::<u8>::empty());
    }
}

/// The users snapshot round trip.
pub proof fn lemma_users_round_trip(ids: Seq<i64>)
    ensures
        p_users(enc_users(ids)) == Some(ids),
    decreases ids.len(),
{
    let s = enc_users(ids);
    if ids.len() == 0 {
    } else {
        let d = dec_int(ids[0] as int);
        crate::num::lemma_dec_int_bytes(ids[0]);
        crate::num::lemma_parse_of_dec_int(ids[0]);
        if ids.len() == 1 {
            assert(s == d);
            assert(line_len(s) == s.len()) by {
                lemma_line_len(s);
                if line_len(s) < s.len() {
                    assert(s[line_len(s)] == NL);
                    assert(is_digit(s[line_len(s)]) || s[line_len(s)] == crate::num::MINUS);
                }
            }
            assert(s.take(s.len() as int) =~= d);
            assert(s.len() > 0) by {
                crate::num::lemma_dec_digits_wf(if ids[0] < 0 {
                    (-ids[0]) as nat
                } else {
                    ids[0] as nat
                });
            }
            assert(seq![ids[0]] =~= ids);
        } else {
            assert(s == d + seq![NL] + enc_users(ids.skip(1)));
            assert(s.len() > 0) by {
                assert(s[0] == d[0] || d.len() == 0);
            }
            lemma_line_len_concat(d, enc_users(ids.skip(1)));
            assert(s.take(d.len() as int) =~= d);
            assert(line_len(s) == d.len());
            assert(d.len() < s.len());
            assert(s.skip(d.len() as int + 1) =~= enc_users(ids.skip(1)));
            lemma_users_round_trip(ids.skip(1));
            assert(seq![ids[0]] + ids.skip(1) =~= ids);
        }
    }
}

/// The first line of `d + "\n" + rest` is `d`, when `d` has no newline.
proof fn lemma_line_len_concat(d: Seq<u8>, rest: Seq<u8>)
    requires
        forall|i: int| 0 <= i < d.len() ==> (#[trigger] d[i]) != NL,
    ensures
        line_len(d + seq![NL] + rest) == d.len(),
    decreases d.len(),
{
    let s = d + seq![NL] + rest;
    if d.len() == 0 {
        assert(s[0] == NL);
    } else {
        assert(s[0] == d[0]);
        assert(s[0] != NL);
        assert forall|i: int| 0 <= i < d.skip(1).len() implies (#[trigger] d.skip(1)[i]) != NL by {
            assert(d.skip(1)[i] == d[i + 1]);
        }
        assert(s.skip(1) =~= d.skip(1) + seq![NL] + rest);
        lemma_line_len_concat(d.skip(1), rest);
    }
}

} // verus!
