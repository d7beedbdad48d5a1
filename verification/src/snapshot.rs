//! Reading and writing the two snapshots, and what loading promises:
//! a missing snapshot is not an error and yields the empty state; a
//! malformed one is reported and yields the empty state too; a well-formed
//! one is reproduced exactly.

use vstd::prelude::*;

use crate::codec::{
    enc_row, enc_rows, enc_str, enc_tasks, enc_todos, enc_users, esc, is_ws, line_len, p_key,
    p_list, p_rows, p_str, p_strbody, p_tasks, p_todos, p_users, skip_ws, BSLASH, COLON, COMMA,
    LBRACE, LBRACK, NL, QUOTE, RBRACE, RBRACK,
};
use crate::num::{encode_int, parse_int};
use crate::store::{rows_view, tasks_view, TodoStore, UsersSet};

verus! {

// ---------------------------------------------------------------- readers

fn x_strbody(s: &Vec<u8>, i: usize) -> (r: Option<(Vec<u8>, usize)>)
    requires
        i <= s.len(),
    ensures
        match r {
            None => p_strbody(s@.skip(i as int)) is None,
            Some((t, j)) => i < j <= s.len() && p_strbody(s@.skip(i as int)) == Some(
                (t@, s@.skip(j as int)),
            ),
        },
    decreases s.len() - i,
{
    let ghost ss = s@.skip(i as int);
    if i == s.len() {
        assert(ss =~= Seq::<u8>::empty());
        return None;
    }
    let b = s[i];
    assert(ss[0] == b);
    if b == QUOTE {
        let t: Vec<u8> = Vec::new();
        assert(ss.skip(1) =~= s@.skip(i as int + 1));
        return Some((t, i + 1));
    }
    if b == BSLASH {
        if i + 1 < s.len() {
            let e = s[i + 1];
            assert(ss[1] == e);
            if e == QUOTE || e == BSLASH {
                assert(ss.skip(2) =~= s@.skip(i as int + 2));
                match x_strbody(s, i + 2) {
                    Some((mut t, j)) => {
                        let ghost t0 = t@;
                        t.insert(0, e);
                        assert(t@ =~= seq![e] + t0);
                        return Some((t, j));
                    },
                    None => {
                        return None;
                    },
                }
            } else {
                return None;
            }
        } else {
            assert(ss.len() == 1);
            return None;
        }
    }
    assert(ss.skip(1) =~= s@.skip(i as int + 1));
    match x_strbody(s, i + 1) {
        Some((mut t, j)) => {
            let ghost t0 = t@;
            t.insert(0, b);
            assert(t@ =~= seq![b] + t0);
            Some((t, j))
        },
        None => None,
    }
}

fn x_skip_ws(s: &Vec<u8>, i: usize) -> (j: usize)
    requires
        i <= s.len(),
    ensures
        i <= j <= s.len(),
        s@.skip(j as int) == skip_ws(s@.skip(i as int)),
{
    let mut j = i;
    while j < s.len() && (s[j] == 32 || s[j] == 9 || s[j] == 10 || s[j] == 13)
        invariant
            i <= j <= s.len(),
            skip_ws(s@.skip(i as int)) == skip_ws(s@.skip(j as int)),
        decreases s.len() - j,
    {
        proof {
            assert(s@.skip(j as int)[0] == s@[j as int]);
            assert(is_ws(s@.skip(j as int)[0]));
            assert(s@.skip(j as int).skip(1) =~= s@.skip(j as int + 1));
        }
        j = j + 1;
    }
    proof {
        let t = s@.skip(j as int);
        assert(t.len() == 0 || !is_ws(t[0])) by {
            if j < s.len() {
                assert(t[0] == s@[j as int]);
            }
        }
        assert(skip_ws(t) == t);
    }
    j
}

fn x_str(s: &Vec<u8>, i: usize) -> (r: Option<(Vec<u8>, usize)>)
    requires
        i <= s.len(),
    ensures
        match r {
            None => p_str(s@.skip(i as int)) is None,
            Some((t, j)) => i + 1 < j <= s.len() && p_str(s@.skip(i as int)) == Some(
                (t@, s@.skip(j as int)),
            ),
        },
{
    let ghost ss = s@.skip(i as int);
    if i < s.len() && s[i] == QUOTE {
        assert(ss[0] == QUOTE);
        assert(ss.skip(1) =~= s@.skip(i as int + 1));
        x_strbody(s, i + 1)
    } else {
        None
    }
}

fn x_tasks(s: &Vec<u8>, i: usize) -> (r: Option<(Vec<Vec<u8>>, usize)>)
    requires
        i <= s.len(),
    ensures
        match r {
            None => p_tasks(s@.skip(i as int)) is None,
            Some((ts, j)) => i < j <= s.len() && p_tasks(s@.skip(i as int)) == Some(
                (tasks_view(ts), s@.skip(j as int)),
            ),
        },
    decreases s.len() - i,
{
    let ghost ss = s@.skip(i as int);
    match x_str(s, i) {
        None => None,
        Some((t, j1)) => {
            let j2 = x_skip_ws(s, j1);
            let ghost r1 = skip_ws(s@.skip(j1 as int));
            if j2 < s.len() && s[j2] == COMMA {
                assert(r1[0] == COMMA);
                assert(r1.skip(1) =~= s@.skip(j2 as int + 1));
                let j3 = x_skip_ws(s, j2 + 1);
                let ghost r2 = skip_ws(r1.skip(1));
                assert(r2 == s@.skip(j3 as int));
                assert(r2.len() < ss.len());
                match x_tasks(s, j3) {
                    Some((mut ts, j4)) => {
                        let ghost ts0 = tasks_view(ts);
                        ts.insert(0, t);
                        proof {
                            assert(tasks_view(ts) =~= seq![t@] + ts0);
                        }
                        Some((ts, j4))
                    },
                    None => None,
                }
            } else if j2 < s.len() && s[j2] == RBRACK {
                assert(r1[0] == RBRACK);
                assert(r1.skip(1) =~= s@.skip(j2 as int + 1));
                let mut ts: Vec<Vec<u8>> = Vec::new();
                ts.push(t);
                proof {
                    assert(tasks_view(ts) =~= seq![t@]);
                }
                Some((ts, j2 + 1))
            } else {
                assert(r1.len() == 0 || (r1[0] != COMMA && r1[0] != RBRACK)) by {
                    if j2 < s.len() {
                        assert(r1[0] == s@[j2 as int]);
                    }
                }
                None
            }
        },
    }
}

fn x_list(s: &Vec<u8>, i: usize) -> (r: Option<(Vec<Vec<u8>>, usize)>)
    requires
        i <= s.len(),
    ensures
        match r {
            None => p_list(s@.skip(i as int)) is None,
            Some((ts, j)) => i < j <= s.len() && p_list(s@.skip(i as int)) == Some(
                (tasks_view(ts), s@.skip(j as int)),
            ),
        },
{
    let ghost ss = s@.skip(i as int);
    if i < s.len() && s[i] == LBRACK {
        assert(ss[0] == LBRACK);
        assert(ss.skip(1) =~= s@.skip(i as int + 1));
        let j1 = x_skip_ws(s, i + 1);
        let ghost r = skip_ws(ss.skip(1));
        assert(r == s@.skip(j1 as int));
        if j1 < s.len() && s[j1] == RBRACK {
            assert(r[0] == RBRACK);
            assert(r.skip(1) =~= s@.skip(j1 as int + 1));
            let ts: Vec<Vec<u8>> = Vec::new();
            proof {
                assert(tasks_view(ts) =~= Seq::<Seq<u8>>::empty());
            }
            Some((ts, j1 + 1))
        } else {
            assert(r.len() == 0 || r[0] != RBRACK) by {
                if j1 < s.len() {
                    assert(r[0] == s@[j1 as int]);
                }
            }
            x_tasks(s, j1)
        }
    } else {
        None
    }
}

fn x_key(s: &Vec<u8>, i: usize) -> (r: Option<(i64, usize)>)
    requires
        i <= s.len(),
    ensures
        match r {
            None => p_key(s@.skip(i as int)) is None,
            Some((id, j)) => i < j <= s.len() && p_key(s@.skip(i as int)) == Some(
                (id, s@.skip(j as int)),
            ),
        },
{
    let ghost ss = s@.skip(i as int);
    if i < s.len() && s[i] == QUOTE {
        assert(ss[0] == QUOTE);
        assert(ss.skip(1) =~= s@.skip(i as int + 1));
        match x_strbody(s, i + 1) {
            Some((content, j)) => {
                let n = content.len();
                match parse_int(&content, 0, n) {
                    Some(id) => {
                        assert(content@.subrange(0, n as int) =~= content@);
                        Some((id, j))
                    },
                    None => {
                        assert(content@.subrange(0, n as int) =~= content@);
                        None
                    },
                }
            },
            None => None,
        }
    } else {
        None
    }
}

fn x_rows(s: &Vec<u8>, i: usize) -> (r: Option<(Vec<(i64, Vec<Vec<u8>>)>, usize)>)
    requires
        i <= s.len(),
    ensures
        match r {
            None => p_rows(s@.skip(i as int)) is None,
            Some((rows, j)) => i < j <= s.len() && p_rows(s@.skip(i as int)) == Some(
                (rows_view(rows), s@.skip(j as int)),
            ),
        },
    decreases s.len() - i,
{
    let ghost ss = s@.skip(i as int);
    match x_key(s, i) {
        None => None,
        Some((id, j1)) => {
            let j2 = x_skip_ws(s, j1);
            let ghost r1 = skip_ws(s@.skip(j1 as int));
            if j2 < s.len() && s[j2] == COLON {
                assert(r1[0] == COLON);
                assert(r1.skip(1) =~= s@.skip(j2 as int + 1));
                let j3 = x_skip_ws(s, j2 + 1);
                match x_list(s, j3) {
                    None => None,
                    Some((ts, j4)) => {
                        let j5 = x_skip_ws(s, j4);
                        let ghost r3 = skip_ws(s@.skip(j4 as int));
                        if j5 < s.len() && s[j5] == COMMA {
                            assert(r3[0] == COMMA);
                            assert(r3.skip(1) =~= s@.skip(j5 as int + 1));
                            let j6 = x_skip_ws(s, j5 + 1);
                            assert(s@.skip(j6 as int).len() < ss.len());
                            match x_rows(s, j6) {
                                Some((mut rows, j7)) => {
                                    let ghost rows0 = rows_view(rows);
                                    rows.insert(0, (id, ts));
                                    proof {
                                        assert(rows_view(rows) =~= seq![(id, tasks_view(ts))]
                                            + rows0);
                                    }
                                    Some((rows, j7))
                                },
                                None => None,
                            }
                        } else if j5 < s.len() && s[j5] == RBRACE {
                            assert(r3[0] == RBRACE);
                            assert(r3.skip(1) =~= s@.skip(j5 as int + 1));
                            let mut rows: Vec<(i64, Vec<Vec<u8>>)> = Vec::new();
                            rows.push((id, ts));
                            proof {
                                assert(rows_view(rows) =~= seq![(id, tasks_view(ts))]);
                            }
                            Some((rows, j5 + 1))
                        } else {
                            assert(r3.len() == 0 || (r3[0] != COMMA && r3[0] != RBRACE)) by {
                                if j5 < s.len() {
                                    assert(r3[0] == s@[j5 as int]);
                                }
                            }
                            None
                        }
                    },
                }
            } else {
                assert(r1.len() == 0 || r1[0] != COLON) by {
                    if j2 < s.len() {
                        assert(r1[0] == s@[j2 as int]);
                    }
                }
                None
            }
        },
    }
}

/// Reads a whole todo snapshot.
pub fn parse_todos(s: &Vec<u8>) -> (r: Option<Vec<(i64, Vec<Vec<u8>>)>>)
    ensures
        match r {
            None => p_todos(s@) is None,
            Some(rows) => p_todos(s@) == Some(rows_view(rows)),
        },
{
    assert(s@.skip(0) =~= s@);
    let i0 = x_skip_ws(s, 0);
    let ghost r = skip_ws(s@);
    if i0 < s.len() && s[i0] == LBRACE {
        assert(r[0] == LBRACE);
        assert(r.skip(1) =~= s@.skip(i0 as int + 1));
        let i1 = x_skip_ws(s, i0 + 1);
        let ghost r1 = skip_ws(r.skip(1));
        if i1 < s.len() && s[i1] == RBRACE {
            assert(r1[0] == RBRACE);
            assert(r1.skip(1) =~= s@.skip(i1 as int + 1));
            let j = x_skip_ws(s, i1 + 1);
            if j == s.len() {
                let rows: Vec<(i64, Vec<Vec<u8>>)> = Vec::new();
                proof {
                    assert(s@.skip(j as int).len() == 0);
                    assert(rows_view(rows) =~= Seq::<(i64, Seq<Seq<u8>>)>::empty());
                }
                Some(rows)
            } else {
                assert(s@.skip(j as int).len() > 0);
                None
            }
        } else {
            assert(r1.len() == 0 || r1[0] != RBRACE) by {
                if i1 < s.len() {
                    assert(r1[0] == s@[i1 as int]);
                }
            }
            match x_rows(s, i1) {
                Some((rows, j)) => {
                    let k = x_skip_ws(s, j);
                    if k == s.len() {
                        assert(skip_ws(s@.skip(j as int)).len() == 0);
                        Some(rows)
                    } else {
                        assert(skip_ws(s@.skip(j as int)).len() > 0);
                        None
                    }
                },
                None => None,
            }
        }
    } else {
        assert(r.len() == 0 || r[0] != LBRACE) by {
            if i0 < s.len() {
                assert(r[0] == s@[i0 as int]);
            }
        }
        None
    }
}

proof fn lemma_line_len_is(s: Seq<u8>, m: int)
    requires
        0 <= m <= s.len(),
        forall|k: int| 0 <= k < m ==> s[k] != NL,
        m == s.len() || s[m] == NL,
    ensures
        line_len(s) == m,
    decreases s.len(),
{
    if m > 0 {
        assert(s[0] != NL);
        assert forall|k: int| 0 <= k < m - 1 implies s.skip(1)[k] != NL by {
            assert(s.skip(1)[k] == s[k + 1]);
        }
        if m < s.len() {
            assert(s.skip(1)[m - 1] == s[m]);
        }
        lemma_line_len_is(s.skip(1), m - 1);
    }
}

fn x_users(s: &Vec<u8>, i: usize) -> (r: Option<Vec<i64>>)
    requires
        i <= s.len(),
    ensures
        match r {
            None => p_users(s@.skip(i as int)) is None,
            Some(ids) => p_users(s@.skip(i as int)) == Some(ids@),
        },
    decreases s.len() - i,
{
    let ghost ss = s@.skip(i as int);
    if i == s.len() {
        let ids: Vec<i64> = Vec::new();
        proof {
            assert(ss =~= Seq::<u8>::empty());
            assert(ids@ =~= Seq::<i64>::empty());
        }
        return Some(ids);
    }
    let mut j = i;
    while j < s.len() && s[j] != NL
        invariant
            i <= j <= s.len(),
            forall|k: int| i <= k < j ==> s@[k] != NL,
        decreases s.len() - j,
    {
        j = j + 1;
    }
    proof {
        assert forall|k: int| 0 <= k < j - i implies ss[k] != NL by {
            assert(ss[k] == s@[i + k]);
        }
        if j < s.len() {
            assert(ss[j - i] == s@[j as int]);
        }
        lemma_line_len_is(ss, j - i);
        assert(ss.take(j - i) =~= s@.subrange(i as int, j as int));
    }
    match parse_int(s, i, j) {
        None => None,
        Some(id) => {
            if j == s.len() {
                let mut ids: Vec<i64> = Vec::new();
                ids.push(id);
                proof {
                    assert(ids@ =~= seq![id]);
                }
                Some(ids)
            } else {
                assert(ss.skip(j - i + 1) =~= s@.skip(j as int + 1));
                match x_users(s, j + 1) {
                    Some(mut ids) => {
                        let ghost ids0 = ids@;
                        ids.insert(0, id);
                        proof {
                            assert(ids@ =~= seq![id] + ids0);
                        }
                        Some(ids)
                    },
                    None => None,
                }
            }
        },
    }
}

/// Reads a whole users snapshot.
pub fn parse_users(s: &Vec<u8>) -> (r: Option<Vec<i64>>)
    ensures
        match r {
            None => p_users(s@) is None,
            Some(ids) => p_users(s@) == Some(ids@),
        },
{
    assert(s@.skip(0) =~= s@);
    x_users(s, 0)
}

// ---------------------------------------------------------------- writers

proof fn lemma_esc_push(t: Seq<u8>, b: u8)
    ensures
        esc(t.push(b)) == esc(t) + (if b == QUOTE || b == BSLASH {
            seq![BSLASH, b]
        } else {
            seq![b]
        }),
    decreases t.len(),
{
    let e: Seq<u8> = if b == QUOTE || b == BSLASH {
        seq![BSLASH, b]
    } else {
        seq![b]
    };
    if t.len() == 0 {
        assert(t.push(b)[0] == b);
        assert(t.push(b).skip(1) =~= Seq::<u8>::empty());
        assert(esc(Seq::<u8>::empty()) == Seq::<u8>::empty());
        assert(esc(t.push(b)) =~= esc(t) + e);
    } else {
        assert(t.push(b)[0] == t[0]);
        assert(t.push(b).skip(1) =~= t.skip(1).push(b));
        lemma_esc_push(t.skip(1), b);
        assert(esc(t.push(b)) =~= esc(t) + e);
    }
}

proof fn lemma_enc_tasks_push(ts: Seq<Seq<u8>>, t: Seq<u8>)
    requires
        ts.len() >= 1,
    ensures
        enc_tasks(ts.push(t)) == enc_tasks(ts) + seq![COMMA] + enc_str(t),
    decreases ts.len(),
{
    if ts.len() == 1 {
        assert(ts.push(t)[0] == ts[0]);
        assert(ts.push(t).skip(1) =~= seq![t]);
        assert(enc_tasks(seq![t]) == enc_str(t));
        assert(enc_tasks(ts.push(t)) =~= enc_tasks(ts) + seq![COMMA] + enc_str(t));
    } else {
        assert(ts.push(t)[0] == ts[0]);
        assert(ts.push(t).skip(1) =~= ts.skip(1).push(t));
        lemma_enc_tasks_push(ts.skip(1), t);
        assert(enc_tasks(ts.push(t)) =~= enc_tasks(ts) + seq![COMMA] + enc_str(t));
    }
}

proof fn lemma_enc_rows_push(rows: Seq<(i64, Seq<Seq<u8>>)>, row: (i64, Seq<Seq<u8>>))
    requires
        rows.len() >= 1,
    ensures
        enc_rows(rows.push(row)) == enc_rows(rows) + seq![COMMA] + enc_row(row),
    decreases rows.len(),
{
    if rows.len() == 1 {
        assert(rows.push(row)[0] == rows[0]);
        assert(rows.push(row).skip(1) =~= seq![row]);
        assert(enc_rows(seq![row]) == enc_row(row));
        assert(enc_rows(rows.push(row)) =~= enc_rows(rows) + seq![COMMA] + enc_row(row));
    } else {
        assert(rows.push(row)[0] == rows[0]);
        assert(rows.push(row).skip(1) =~= rows.skip(1).push(row));
        lemma_enc_rows_push(rows.skip(1), row);
        assert(enc_rows(rows.push(row)) =~= enc_rows(rows) + seq![COMMA] + enc_row(row));
    }
}

proof fn lemma_enc_users_push(ids: Seq<i64>, id: i64)
    requires
        ids.len() >= 1,
    ensures
        enc_users(ids.push(id)) == enc_users(ids) + seq![NL] + crate::num::dec_int(id as int),
    decreases ids.len(),
{
    if ids.len() == 1 {
        assert(ids.push(id)[0] == ids[0]);
        assert(ids.push(id).skip(1) =~= seq![id]);
        assert(enc_users(seq![id]) == crate::num::dec_int(id as int));
        assert(enc_users(ids.push(id)) =~= enc_users(ids) + seq![NL] + crate::num::dec_int(
            id as int,
        ));
    } else {
        assert(ids.push(id)[0] == ids[0]);
        assert(ids.push(id).skip(1) =~= ids.skip(1).push(id));
        lemma_enc_users_push(ids.skip(1), id);
        assert(enc_users(ids.push(id)) =~= enc_users(ids) + seq![NL] + crate::num::dec_int(
            id as int,
        ));
    }
}

/// Appends one quoted, escaped task.
fn write_str(out: &mut Vec<u8>, t: &Vec<u8>)
    ensures
        final(out)@ == old(out)@ + enc_str(t@),
{
    let ghost base = out@;
    out.push(QUOTE);
    let mut i: usize = 0;
    while i < t.len()
        invariant
            i <= t.len(),
            out@ == base + seq![QUOTE] + esc(t@.take(i as int)),
        decreases t.len() - i,
    {
        let b = t[i];
        proof {
            assert(t@.take(i + 1) =~= t@.take(i as int).push(b));
            lemma_esc_push(t@.take(i as int), b);
        }
        if b == QUOTE || b == BSLASH {
            out.push(BSLASH);
            out.push(b);
            assert(out@ =~= base + seq![QUOTE] + esc(t@.take(i + 1)));
        } else {
            out.push(b);
            assert(out@ =~= base + seq![QUOTE] + esc(t@.take(i + 1)));
        }
        i = i + 1;
    }
    assert(t@.take(t@.len() as int) =~= t@);
    out.push(QUOTE);
    assert(out@ =~= base + enc_str(t@));
}

/// Appends one row: quoted key, colon, task array.
fn write_row(out: &mut Vec<u8>, id: i64, ts: &Vec<Vec<u8>>)
    ensures
        final(out)@ == old(out)@ + enc_row((id, tasks_view(*ts))),
{
    let ghost base = out@;
    out.push(QUOTE);
    let mut d = encode_int(id);
    out.append(&mut d);
    out.push(QUOTE);
    out.push(COLON);
    out.push(LBRACK);
    let ghost head = base + seq![QUOTE] + crate::num::dec_int(id as int) + seq![QUOTE, COLON]
        + seq![LBRACK];
    assert(out@ =~= head);
    let ghost tv = tasks_view(*ts);
    let mut j: usize = 0;
    while j < ts.len()
        invariant
            j <= ts.len(),
            tv == tasks_view(*ts),
            tv.len() == ts.len(),
            out@ == head + enc_tasks(tv.take(j as int)),
        decreases ts.len() - j,
    {
        proof {
            assert(tv.take(j + 1) =~= tv.take(j as int).push(tv[j as int]));
            assert(tv[j as int] == ts[j as int]@);
        }
        if j > 0 {
            out.push(COMMA);
            proof {
                lemma_enc_tasks_push(tv.take(j as int), tv[j as int]);
            }
            write_str(out, &ts[j]);
            assert(out@ =~= head + enc_tasks(tv.take(j + 1)));
        } else {
            write_str(out, &ts[j]);
            proof {
                assert(tv.take(1) =~= seq![tv[0]]);
                assert(enc_tasks(seq![tv[0]]) == enc_str(tv[0]));
            }
            assert(out@ =~= head + enc_tasks(tv.take(1)));
        }
        j = j + 1;
    }
    proof {
        assert(tv.take(ts@.len() as int) =~= tv);
    }
    out.push(RBRACK);
    assert(out@ =~= base + enc_row((id, tasks_view(*ts))));
}

/// Writes the whole todo snapshot for a store.
pub fn save_todos(store: &TodoStore) -> (r: Vec<u8>)
    ensures
        r@ == enc_todos(store.rows()),
{
    let mut out: Vec<u8> = Vec::new();
    out.push(LBRACE);
    let ghost rows = store.rows();
    let n = store.row_count();
    let mut i: usize = 0;
    while i < n
        invariant
            i <= n,
            n == rows.len(),
            rows == store.rows(),
            out@ == seq![LBRACE] + enc_rows(rows.take(i as int)),
        decreases n - i,
    {
        let row = store.row_at(i);
        proof {
            assert(rows.take(i + 1) =~= rows.take(i as int).push(rows[i as int]));
        }
        if i > 0 {
            out.push(COMMA);
            proof {
                lemma_enc_rows_push(rows.take(i as int), rows[i as int]);
            }
            write_row(&mut out, row.0, &row.1);
            assert(out@ =~= seq![LBRACE] + enc_rows(rows.take(i + 1)));
        } else {
            write_row(&mut out, row.0, &row.1);
            proof {
                assert(rows.take(1) =~= seq![rows[0]]);
                assert(enc_rows(seq![rows[0]]) == enc_row(rows[0]));
            }
            assert(out@ =~= seq![LBRACE] + enc_rows(rows.take(1)));
        }
        i = i + 1;
    }
    proof {
        assert(rows.take(rows.len() as int) =~= rows);
    }
    out.push(RBRACE);
    assert(out@ =~= enc_todos(rows));
    out
}

/// Writes the whole users snapshot: one decimal id per line, no trailing
/// newline.
pub fn save_users(users: &UsersSet) -> (r: Vec<u8>)
    ensures
        r@ == enc_users(users.ids_seq()),
{
    let ids = users.snapshot();
    let mut out: Vec<u8> = Vec::new();
    let mut i: usize = 0;
    while i < ids.len()
        invariant
            i <= ids.len(),
            ids@ == users.ids_seq(),
            out@ == enc_users(ids@.take(i as int)),
        decreases ids.len() - i,
    {
        let ghost pre = ids@.take(i as int);
        proof {
            assert(ids@.take(i + 1) =~= pre.push(ids@[i as int]));
        }
        if i > 0 {
            out.push(NL);
            proof {
                lemma_enc_users_push(pre, ids@[i as int]);
            }
            let mut d = encode_int(ids[i]);
            out.append(&mut d);
            assert(out@ =~= enc_users(ids@.take(i + 1)));
        } else {
            let mut d = encode_int(ids[i]);
            out.append(&mut d);
            proof {
                assert(ids@.take(1) =~= seq![ids@[0]]);
            }
            assert(out@ =~= enc_users(ids@.take(1)));
        }
        i = i + 1;
    }
    proof {
        assert(ids@.take(ids@.len() as int) =~= ids@);
    }
    out
}

// ---------------------------------------------------------------- loading

/// Whether any two rows share a key.
fn rows_have_dup(rows: &Vec<(i64, Vec<Vec<u8>>)>) -> (r: bool)
    ensures
        r == !crate::store::unique_keys(rows_view(*rows)),
{
    let ghost rv = rows_view(*rows);
    let mut i: usize = 0;
    while i < rows.len()
        invariant
            i <= rows.len(),
            rv == rows_view(*rows),
            rv.len() == rows.len(),
            forall|a: int, b: int| 0 <= a < b < i ==> (#[trigger] rv[a]).0 != (#[trigger] rv[b]).0,
            forall|a: int, b: int|
                0 <= a < i && i <= b < rv.len() ==> (#[trigger] rv[a]).0 != (#[trigger] rv[b]).0,
        decreases rows.len() - i,
    {
        let mut j: usize = i + 1;
        while j < rows.len()
            invariant
                i < rows.len(),
                i + 1 <= j <= rows.len(),
                rv == rows_view(*rows),
                rv.len() == rows.len(),
                forall|b: int| i < b < j ==> (#[trigger] rv[b]).0 != rv[i as int].0,
            decreases rows.len() - j,
        {
            if rows[j].0 == rows[i].0 {
                assert(rv[j as int].0 == rv[i as int].0);
                return true;
            }
            j = j + 1;
        }
        i = i + 1;
    }
    false
}

/// Loads the todo store from a snapshot, if one was found.
///
/// A missing snapshot is no error: the store starts empty. A snapshot that
/// does not read back, or reads to two rows with one key, is reported in
/// the second result and the store starts empty as well; a good one is
/// reproduced row for row.
pub fn load_todos(content: Option<&Vec<u8>>) -> (r: (TodoStore, bool))
    ensures
        r.0.wf(),
        match content {
            None => r.0.rows() == Seq::<(i64, Seq<Seq<u8>>)>::empty() && !r.1,
            Some(b) => match p_todos(b@) {
                Some(rows) => {
                    if crate::store::unique_keys(rows) {
                        r.0.rows() == rows && !r.1
                    } else {
                        r.0.rows() == Seq::<(i64, Seq<Seq<u8>>)>::empty() && r.1
                    }
                },
                None => r.0.rows() == Seq::<(i64, Seq<Seq<u8>>)>::empty() && r.1,
            },
        },
{
    match content {
        None => (TodoStore::new(), false),
        Some(b) => match parse_todos(b) {
            Some(rows) => {
                if rows_have_dup(&rows) {
                    (TodoStore::new(), true)
                } else {
                    (TodoStore::from_rows(rows), false)
                }
            },
            None => (TodoStore::new(), true),
        },
    }
}

/// Loads the users set from a snapshot, if one was found.
///
/// A missing snapshot is no error: the set starts empty. A snapshot with a
/// line that is not a decimal id is reported and the set starts empty; a
/// good one gives back exactly its ids, repeats collapsed.
pub fn load_users(content: Option<&Vec<u8>>) -> (r: (UsersSet, bool))
    ensures
        r.0.wf(),
        match content {
            None => r.0.ids_seq() == Seq::<i64>::empty() && !r.1,
            Some(b) => match p_users(b@) {
                Some(ids) => r.0.ids_seq() == crate::store::dedup_spec(ids) && (forall|c: i64|
                    #[trigger] r.0.spec_contains(c) <==> ids.contains(c)) && !r.1,
                None => r.0.ids_seq() == Seq::<i64>::empty() && r.1,
            },
        },
{
    match content {
        None => (UsersSet::new(), false),
        Some(b) => match parse_users(b) {
            Some(ids) => (UsersSet::from_ids(&ids), false),
            None => (UsersSet::new(), true),
        },
    }
}

/// The snapshot round trip: what `save_todos` and `save_users` write reads
/// back, through `load_todos` and `load_users`, to the same rows and the
/// same membership — for any store whose keys are unique and any users
/// set, multi-chat data included.
pub proof fn lemma_snapshot_round_trip(store: TodoStore, users: UsersSet)
    requires
        store.wf(),
        users.wf(),
    ensures
        p_todos(enc_todos(store.rows())) == Some(store.rows()),
        crate::store::unique_keys(store.rows()),
        p_users(enc_users(users.ids_seq())) == Some(users.ids_seq()),
        crate::store::dedup_spec(users.ids_seq()) == users.ids_seq(),
{
    crate::codec::lemma_todos_round_trip(store.rows());
    crate::codec::lemma_users_round_trip(users.ids_seq());
    crate::store::lemma_dedup_of_unique(users.ids_seq());
}

} // verus!
