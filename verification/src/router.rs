//! The command surface: what each inbound command does to the store and
//! which action the transport must then perform. Registration on first
//! contact, the todo append, the list rendering and the raw-URL rewrite
//! are all decided and verified here; sending, fetching and help-text
//! formatting are actions handed to the caller.

use vstd::prelude::*;

use crate::num::dec_digits;
use crate::store::{register_spec, tasks_view, TodoStore, UsersSet};

verus! {

/// One inbound command, already parsed by the transport layer.
#[derive(Debug, PartialEq, Eq)]
pub enum Command {
    Help,
    Cat,
    Define(Vec<u8>),
    Useless,
    Raw(Vec<u8>),
    Weather,
    Dice,
    Coin,
    Todo(Vec<u8>),
    List,
}

/// What the transport must do next. Fetches come back through
/// `cat_reply` and friends, so a failed fetch can never crash a handler.
#[derive(Debug, PartialEq, Eq)]
pub enum Action {
    /// Greet a chat seen for the first time.
    Greet,
    /// Send plain text.
    Reply(Vec<u8>),
    /// Send text with HTML markup.
    ReplyHtml(Vec<u8>),
    /// Send the photo behind a URL.
    SendPhotoUrl(Vec<u8>),
    /// Send the formatted help text.
    SendHelp,
    /// Fetch a random cat image URL.
    FetchCat,
    /// Fetch the definitions of a word.
    FetchDefinition(Vec<u8>),
    /// Fetch a random fact.
    FetchUselessFact,
    /// Fetch the weather line.
    FetchWeather,
    /// Send a dice roll.
    SendDice,
}

// --------------------------------------------------------------- messages

pub open spec fn greeting_spec(u: Seq<u8>) -> Seq<u8> {
    seq![72u8, 105, 32] + u + seq![33u8]
}

pub open spec fn todo_added_spec(t: Seq<u8>) -> Seq<u8> {
    seq![65u8, 100, 100, 101, 100, 32, 60, 117, 62] + t + seq![
        60u8,
        47,
        117,
        62,
        32,
        116,
        111,
        32,
        116,
        111,
        100,
        111,
        32,
        108,
        105,
        115,
        116,
    ]
}

pub open spec fn list_header_spec() -> Seq<u8> {
    seq![60u8, 117, 62, 84, 111, 100, 111, 32, 108, 105, 115, 116, 58, 60, 47, 117, 62, 10]
}

pub open spec fn cat_failed_spec() -> Seq<u8> {
    seq![
        70u8,
        97,
        105,
        108,
        101,
        100,
        32,
        116,
        111,
        32,
        102,
        101,
        116,
        99,
        104,
        32,
        99,
        97,
        116,
        32,
        105,
        109,
        97,
        103,
        101,
        46,
    ]
}

/// The coin toss reply: one coin emoji, as its UTF-8 bytes.
pub open spec fn coin_spec() -> Seq<u8> {
    seq![240u8, 159, 170, 153]
}

pub open spec fn gh_host_spec() -> Seq<u8> {
    seq![103u8, 105, 116, 104, 117, 98, 46, 99, 111, 109]
}

pub open spec fn raw_host_spec() -> Seq<u8> {
    seq![
        114u8,
        97,
        119,
        46,
        103,
        105,
        116,
        104,
        117,
        98,
        117,
        115,
        101,
        114,
        99,
        111,
        110,
        116,
        101,
        110,
        116,
        46,
        99,
        111,
        109,
    ]
}

pub open spec fn blob_seg_spec() -> Seq<u8> {
    seq![47u8, 98, 108, 111, 98, 47]
}

pub open spec fn startup_spec() -> Seq<u8> {
    seq![
        66u8,
        111,
        116,
        32,
        115,
        116,
        97,
        114,
        116,
        101,
        100,
        32,
        115,
        117,
        99,
        99,
        101,
        115,
        115,
        102,
        117,
        108,
        108,
        121,
        46,
        32,
        85,
        115,
        101,
        32,
        47,
        104,
        101,
        108,
        112,
        32,
        116,
        111,
        32,
        115,
        101,
        101,
        32,
        97,
        118,
        97,
        105,
        108,
        97,
        98,
        108,
        101,
        32,
        99,
        111,
        109,
        109,
        97,
        110,
        100,
        115,
        46,
    ]
}

pub open spec fn shutdown_spec() -> Seq<u8> {
    seq![
        84u8,
        104,
        101,
        32,
        98,
        111,
        116,
        32,
        105,
        115,
        32,
        115,
        104,
        117,
        116,
        116,
        105,
        110,
        103,
        32,
        100,
        111,
        119,
        110,
        46,
    ]
}

/// The one-time greeting for a newly seen chat.
pub fn greeting(username: &Vec<u8>) -> (r: Vec<u8>)
    ensures
        r@ == greeting_spec(username@),
{
    let mut r: Vec<u8> = vec![72u8, 105, 32];
    let mut u = crate::store::copy_bytes(username);
    r.append(&mut u);
    r.push(33);
    assert(r@ =~= greeting_spec(username@));
    r
}

/// The announcement sent to everyone at startup.
pub fn startup_message() -> (r: Vec<u8>)
    ensures
        r@ == startup_spec(),
{
    let r: Vec<u8> = vec![
        66u8, 111, 116, 32, 115, 116, 97, 114, 116, 101, 100, 32, 115, 117, 99, 99, 101, 115, 115,
        102, 117, 108, 108, 121, 46, 32, 85, 115, 101, 32, 47, 104, 101, 108, 112, 32, 116, 111,
        32, 115, 101, 101, 32, 97, 118, 97, 105, 108, 97, 98, 108, 101, 32, 99, 111, 109, 109, 97,
        110, 100, 115, 46,
    ];
    assert(r@ =~= startup_spec());
    r
}

/// The announcement sent to everyone at shutdown.
pub fn shutdown_message() -> (r: Vec<u8>)
    ensures
        r@ == shutdown_spec(),
{
    let r: Vec<u8> = vec![
        84u8, 104, 101, 32, 98, 111, 116, 32, 105, 115, 32, 115, 104, 117, 116, 116, 105, 110,
        103, 32, 100, 111, 119, 110, 46,
    ];
    assert(r@ =~= shutdown_spec());
    r
}

// ------------------------------------------------------------ raw rewrite

/// Every occurrence of `pat` replaced by `rep`, left to right, without
/// touching what a replacement produced.
pub open spec fn replace_all_spec(s: Seq<u8>, pat: Seq<u8>, rep: Seq<u8>) -> Seq<u8>
    decreases s.len(),
    when pat.len() > 0
{
    if s.len() < pat.len() {
        s
    } else if s.take(pat.len() as int) == pat {
        rep + replace_all_spec(s.skip(pat.len() as int), pat, rep)
    } else {
        seq![s[0]] + replace_all_spec(s.skip(1), pat, rep)
    }
}

/// The raw-source rewrite: host swapped for the raw host, the blob path
/// segment dropped.
pub open spec fn raw_url_spec(s: Seq<u8>) -> Seq<u8> {
    replace_all_spec(replace_all_spec(s, gh_host_spec(), raw_host_spec()), blob_seg_spec(), seq![
        47u8,
    ])
}

fn match_at(s: &Vec<u8>, i: usize, pat: &Vec<u8>) -> (b: bool)
    requires
        i <= s.len(),
    ensures
        b <==> (i + pat@.len() <= s@.len() && s@.subrange(i as int, i + pat@.len()) == pat@),
{
    let n = s.len();
    if pat.len() > n - i {
        return false;
    }
    let mut j: usize = 0;
    while j < pat.len()
        invariant
            i + pat@.len() <= s@.len(),
            j <= pat@.len(),
            i + j <= s@.len(),
            n == s@.len(),
            forall|k: int| 0 <= k < j ==> s@[i + k] == pat@[k],
        decreases pat.len() - j,
    {
        if s[i + j] != pat[j] {
            proof {
                assert(s@.subrange(i as int, i + pat@.len())[j as int] != pat@[j as int]);
            }
            return false;
        }
        j = j + 1;
    }
    proof {
        assert(s@.subrange(i as int, i + pat@.len()) =~= pat@);
    }
    true
}

/// Every occurrence of `pat` replaced by `rep`, left to right.
pub fn replace_all(s: &Vec<u8>, pat: &Vec<u8>, rep: &Vec<u8>) -> (r: Vec<u8>)
    requires
        pat@.len() > 0,
    ensures
        r@ == replace_all_spec(s@, pat@, rep@),
{
    let mut out: Vec<u8> = Vec::new();
    let mut i: usize = 0;
    proof {
        assert(s@.skip(0) =~= s@);
        assert(out@ + replace_all_spec(s@, pat@, rep@) =~= replace_all_spec(s@, pat@, rep@));
    }
    while i < s.len()
        invariant
            pat@.len() > 0,
            i <= s.len(),
            replace_all_spec(s@, pat@, rep@) == out@ + replace_all_spec(
                s@.skip(i as int),
                pat@,
                rep@,
            ),
        decreases s.len() - i,
    {
        let ghost rem = s@.skip(i as int);
        if match_at(s, i, pat) {
            let mut rp = crate::store::copy_bytes(rep);
            out.append(&mut rp);
            proof {
                assert(rem.take(pat@.len() as int) =~= s@.subrange(i as int, i + pat@.len()));
                assert(rem.skip(pat@.len() as int) =~= s@.skip(i + pat@.len()));
            }
            i = i + pat.len();
        } else {
            out.push(s[i]);
            proof {
                assert(rem[0] == s@[i as int]);
                assert(rem.skip(1) =~= s@.skip(i as int + 1));
                if rem.len() >= pat@.len() {
                    assert(rem.take(pat@.len() as int) =~= s@.subrange(i as int, i + pat@.len()));
                    assert(rem.take(pat@.len() as int) != pat@);
                } else {
                    assert(replace_all_spec(rem, pat@, rep@) == rem);
                    assert(rem.skip(1).len() < pat@.len());
                    assert(replace_all_spec(rem.skip(1), pat@, rep@) == rem.skip(1));
                    assert(rem =~= seq![rem[0]] + rem.skip(1));
                }
            }
            i = i + 1;
        }
    }
    proof {
        assert(s@.skip(s@.len() as int).len() == 0);
        assert(out@ + replace_all_spec(s@.skip(s@.len() as int), pat@, rep@) =~= out@);
    }
    out
}

/// Rewrites a repository file URL to its raw-content form.
pub fn raw_url(file: &Vec<u8>) -> (r: Vec<u8>)
    ensures
        r@ == raw_url_spec(file@),
{
    let gh: Vec<u8> = vec![103u8, 105, 116, 104, 117, 98, 46, 99, 111, 109];
    let raw: Vec<u8> = vec![
        114u8, 97, 119, 46, 103, 105, 116, 104, 117, 98, 117, 115, 101, 114, 99, 111, 110, 116,
        101, 110, 116, 46, 99, 111, 109,
    ];
    let blob: Vec<u8> = vec![47u8, 98, 108, 111, 98, 47];
    let slash: Vec<u8> = vec![47u8];
    proof {
        assert(gh@ =~= gh_host_spec());
        assert(raw@ =~= raw_host_spec());
        assert(blob@ =~= blob_seg_spec());
        assert(slash@ =~= seq![47u8]);
    }
    let step1 = replace_all(file, &gh, &raw);
    replace_all(&step1, &blob, &slash)
}

// ---------------------------------------------------------- list rendering

/// The numbered lines of a task list, counting from `n`.
pub open spec fn list_lines(ts: Seq<Seq<u8>>, n: nat) -> Seq<u8>
    decreases ts.len(),
{
    if ts.len() == 0 {
        Seq::empty()
    } else {
        dec_digits(n) + seq![46u8, 32] + ts[0] + seq![10u8] + list_lines(
            ts.skip(1),
            (n + 1) as nat,
        )
    }
}

/// The full reply to a list command: header, then one numbered line per
/// task, 1-indexed.
pub open spec fn render_list_spec(ts: Seq<Seq<u8>>) -> Seq<u8> {
    list_header_spec() + list_lines(ts, 1)
}

proof fn lemma_list_lines_push(ts: Seq<Seq<u8>>, t: Seq<u8>, n: nat)
    ensures
        list_lines(ts.push(t), n) == list_lines(ts, n) + dec_digits((n + ts.len()) as nat) + seq![
            46u8,
            32,
        ] + t + seq![10u8],
    decreases ts.len(),
{
    if ts.len() == 0 {
        assert(ts.push(t)[0] == t);
        assert(ts.push(t).skip(1) =~= Seq::<Seq<u8>>::empty());
        assert(list_lines(Seq::<Seq<u8>>::empty(), (n + 1) as nat) == Seq::<u8>::empty());
        assert(list_lines(ts.push(t), n) =~= list_lines(ts, n) + dec_digits((n + ts.len()) as nat)
            + seq![46u8, 32] + t + seq![10u8]);
    } else {
        assert(ts.push(t)[0] == ts[0]);
        assert(ts.push(t).skip(1) =~= ts.skip(1).push(t));
        lemma_list_lines_push(ts.skip(1), t, (n + 1) as nat);
        assert(list_lines(ts.push(t), n) =~= list_lines(ts, n) + dec_digits((n + ts.len()) as nat)
            + seq![46u8, 32] + t + seq![10u8]);
    }
}

/// Renders a chat's tasks: the header, then `1. first`, `2. second`, …
/// An empty list renders as the header alone.
pub fn render_list(ts: &Vec<Vec<u8>>) -> (r: Vec<u8>)
    ensures
        r@ == render_list_spec(tasks_view(*ts)),
{
    let mut out: Vec<u8> = vec![
        60u8, 117, 62, 84, 111, 100, 111, 32, 108, 105, 115, 116, 58, 60, 47, 117, 62, 10,
    ];
    let ghost tv = tasks_view(*ts);
    proof {
        assert(out@ =~= list_header_spec());
        assert(tv.take(0) =~= Seq::<Seq<u8>>::empty());
        assert(out@ + list_lines(tv.take(0), 1) =~= out@);
    }
    let mut j: usize = 0;
    while j < ts.len()
        invariant
            j <= ts.len(),
            tv == tasks_view(*ts),
            tv.len() == ts.len(),
            out@ == list_header_spec() + list_lines(tv.take(j as int), 1),
        decreases ts.len() - j,
    {
        proof {
            assert(tv.take(j + 1) =~= tv.take(j as int).push(tv[j as int]));
            assert(tv[j as int] == ts[j as int]@);
            lemma_list_lines_push(tv.take(j as int), tv[j as int], 1);
        }
        let n: u64 = (j as u64) + 1;
        let mut num = crate::num::encode_u64(n);
        proof {
            assert((1 + tv.take(j as int).len()) as nat == n as nat);
        }
        out.append(&mut num);
        out.push(46);
        out.push(32);
        let mut task = crate::store::copy_bytes(&ts[j]);
        out.append(&mut task);
        out.push(10);
        proof {
            assert(out@ =~= list_header_spec() + list_lines(tv.take(j + 1), 1));
        }
        j = j + 1;
    }
    proof {
        assert(tv.take(ts@.len() as int) =~= tv);
    }
    out
}

// ---------------------------------------------------------------- handler

/// What the reply to a command must be, given the tasks the chat had
/// before the command ran.
pub open spec fn is_response(a: Action, cmd: Command, tasks_before: Seq<Seq<u8>>) -> bool {
    match cmd {
        Command::Help => a is SendHelp,
        Command::Cat => a is FetchCat,
        Command::Define(w) => a matches Action::FetchDefinition(x) && x@ == w@,
        Command::Useless => a is FetchUselessFact,
        Command::Raw(u) => a matches Action::Reply(m) && m@ == raw_url_spec(u@),
        Command::Weather => a is FetchWeather,
        Command::Dice => a is SendDice,
        Command::Coin => a matches Action::Reply(m) && m@ == coin_spec(),
        Command::Todo(t) => a matches Action::ReplyHtml(m) && m@ == todo_added_spec(t@),
        Command::List => a matches Action::ReplyHtml(m) && m@ == render_list_spec(tasks_before),
    }
}

/// Handles one inbound command.
///
/// The chat is registered first: exactly when it was never seen before,
/// a greeting precedes the reply. A todo command appends its task to this
/// chat's list and nothing else; every other command leaves the store
/// untouched. A list command replies from the chat's tasks as they are,
/// an empty or absent row rendering as the bare header, never an error.
pub fn handle_command(store: &mut TodoStore, users: &mut UsersSet, chat: i64, cmd: Command) -> (acts:
    Vec<Action>)
    requires
        old(store).wf(),
        old(users).wf(),
    ensures
        final(store).wf(),
        final(users).wf(),
        final(users).ids_seq() == register_spec(old(users).ids_seq(), chat),
        final(users).spec_contains(chat),
        (match cmd {
            Command::Todo(t) => final(store).tasks_of(chat) == old(store).tasks_of(chat).push(t@)
                && (forall|d: i64|
                d != chat ==> #[trigger] final(store).tasks_of(d) == old(store).tasks_of(d)),
            _ => final(store).rows() == old(store).rows(),
        }),
        acts@.len() == (if old(users).spec_contains(chat) {
            1int
        } else {
            2int
        }),
        !old(users).spec_contains(chat) ==> acts@[0] is Greet,
        is_response(acts@[acts@.len() - 1], cmd, old(store).tasks_of(chat)),
{
    let mut acts: Vec<Action> = Vec::new();
    let added = users.insert(chat);
    if added {
        acts.push(Action::Greet);
    }
    match cmd {
        Command::Help => acts.push(Action::SendHelp),
        Command::Cat => acts.push(Action::FetchCat),
        Command::Define(w) => acts.push(Action::FetchDefinition(w)),
        Command::Useless => acts.push(Action::FetchUselessFact),
        Command::Raw(u) => {
            let m = raw_url(&u);
            acts.push(Action::Reply(m));
        },
        Command::Weather => acts.push(Action::FetchWeather),
        Command::Dice => acts.push(Action::SendDice),
        Command::Coin => {
            let m: Vec<u8> = vec![240u8, 159, 170, 153];
            proof {
                assert(m@ =~= coin_spec());
            }
            acts.push(Action::Reply(m));
        },
        Command::Todo(t) => {
            let copy = crate::store::copy_bytes(&t);
            let mut m: Vec<u8> = vec![65u8, 100, 100, 101, 100, 32, 60, 117, 62];
            let mut mid = crate::store::copy_bytes(&t);
            m.append(&mut mid);
            let mut tail: Vec<u8> = vec![
                60u8, 47, 117, 62, 32, 116, 111, 32, 116, 111, 100, 111, 32, 108, 105, 115, 116,
            ];
            m.append(&mut tail);
            proof {
                assert(m@ =~= todo_added_spec(t@));
            }
            store.add_task(chat, copy);
            acts.push(Action::ReplyHtml(m));
        },
        Command::List => {
            let ts = store.list_tasks(chat);
            let m = render_list(&ts);
            acts.push(Action::ReplyHtml(m));
        },
    }
    acts
}

/// The reply once a cat-image fetch came back: the photo when the fetch
/// yielded a URL, the fixed failure text when it did not, so a failed
/// fetch answers the user instead of crashing the handler.
pub fn cat_reply(url: Option<Vec<u8>>) -> (a: Action)
    ensures
        match url {
            Some(u) => a matches Action::SendPhotoUrl(x) && x@ == u@,
            None => a matches Action::Reply(m) && m@ == cat_failed_spec(),
        },
{
    match url {
        Some(u) => Action::SendPhotoUrl(u),
        None => {
            let m: Vec<u8> = vec![
                70u8, 97, 105, 108, 101, 100, 32, 116, 111, 32, 102, 101, 116, 99, 104, 32, 99,
                97, 116, 32, 105, 109, 97, 103, 101, 46,
            ];
            proof {
                assert(m@ =~= cat_failed_spec());
            }
            Action::Reply(m)
        },
    }
}

} // verus!
