use chrono::Datelike;
use todobot::broadcast::Broadcast;
use todobot::router::{cat_reply, greeting, handle_command, raw_url, render_list, shutdown_message,
                      startup_message, Action, Command};
use todobot::schedule::{local_now, next_broadcast, next_day, scheduler_wake, Date, LocalTime,
                        SchedulerAction};
use todobot::snapshot::{load_todos, load_users, parse_users, save_todos, save_users};
use todobot::store::{TodoStore, UsersSet};

fn bv(s: &str) -> Vec<u8> {
    s.as_bytes().to_vec()
}

#[test]
fn list_empty_for_unknown_chat() {
    let store = TodoStore::new();
    let tasks = store.list_tasks(42);
    assert!(tasks.is_empty());
    assert_eq!(render_list(&tasks), bv("<u>Todo list:</u>\n"));
}

#[test]
fn todo_then_list_in_order() {
    let mut store = TodoStore::new();
    store.add_task(7, bv("buy milk"));
    store.add_task(7, bv("call bob"));
    store.add_task(9, bv("other chat"));
    store.add_task(7, bv("water plants"));
    let tasks = store.list_tasks(7);
    assert_eq!(tasks, vec![bv("buy milk"), bv("call bob"), bv("water plants")]);
    assert_eq!(
        render_list(&tasks),
        bv("<u>Todo list:</u>\n1. buy milk\n2. call bob\n3. water plants\n")
    );
    assert_eq!(store.list_tasks(9), vec![bv("other chat")]);
}

#[test]
fn snapshot_round_trip_multi_chat() {
    let mut store = TodoStore::new();
    store.add_task(111, bv("buy milk"));
    store.add_task(111, bv("say \"hi\" to a\\b"));
    store.add_task(-52, bv("group task"));
    let mut users = UsersSet::new();
    users.insert(111);
    users.insert(-52);

    let todo_bytes = save_todos(&store);
    let user_bytes = save_users(&users);

    let (store2, bad_todos) = load_todos(Some(&todo_bytes));
    let (users2, bad_users) = load_users(Some(&user_bytes));
    assert!(!bad_todos);
    assert!(!bad_users);
    assert_eq!(store2.list_tasks(111), store.list_tasks(111));
    assert_eq!(store2.list_tasks(-52), store.list_tasks(-52));
    assert_eq!(store2.list_tasks(999), Vec::<Vec<u8>>::new());
    assert!(users2.contains(111));
    assert!(users2.contains(-52));
    assert!(!users2.contains(999));
    assert_eq!(users2.len(), 2);
    assert_eq!(users2.snapshot(), users.snapshot());
}

#[test]
fn snapshot_formats_are_exact() {
    let mut store = TodoStore::new();
    store.add_task(111, bv("buy milk"));
    store.add_task(111, bv("call bob"));
    assert_eq!(save_todos(&store), bv("{\"111\":[\"buy milk\",\"call bob\"]}"));
    let empty = TodoStore::new();
    assert_eq!(save_todos(&empty), bv("{}"));
    let mut users = UsersSet::new();
    users.insert(3);
    users.insert(-4);
    assert_eq!(save_users(&users), bv("3\n-4"));
    assert_eq!(save_users(&UsersSet::new()), bv(""));
}

#[test]
fn load_missing_snapshots_yields_empty_state() {
    let (store, bad_todos) = load_todos(None);
    let (users, bad_users) = load_users(None);
    assert!(!bad_todos);
    assert!(!bad_users);
    assert!(store.list_tasks(1).is_empty());
    assert_eq!(users.len(), 0);
}

#[test]
fn load_corrupt_snapshots_reports_and_starts_empty() {
    let (store, bad) = load_todos(Some(&bv("{\"111\": not json")));
    assert!(bad);
    assert!(store.list_tasks(111).is_empty());

    // two rows for one chat are refused rather than silently merged
    let (store, bad) = load_todos(Some(&bv("{\"5\":[\"a\"],\"5\":[\"b\"]}")));
    assert!(bad);
    assert!(store.list_tasks(5).is_empty());

    let (users, bad) = load_users(Some(&bv("12\nnot-a-number")));
    assert!(bad);
    assert_eq!(users.len(), 0);
}

#[test]
fn load_accepts_whitespace_between_tokens() {
    let (store, bad) = load_todos(Some(&bv("{\"111\": [\"buy milk\", \"call bob\"]}")));
    assert!(!bad);
    assert_eq!(
        render_list(&store.list_tasks(111)),
        bv("<u>Todo list:</u>\n1. buy milk\n2. call bob\n")
    );
    assert_eq!(render_list(&store.list_tasks(999)), bv("<u>Todo list:</u>\n"));
}

#[test]
fn users_snapshot_parses_per_line() {
    let ids = parse_users(&bv("111\n-222\n3")).expect("well-formed");
    assert_eq!(ids, vec![111, -222, 3]);
    assert_eq!(parse_users(&bv("")).expect("empty is fine"), Vec::<i64>::new());
    assert!(parse_users(&bv("12x")).is_none());
    // repeated ids collapse on load, first occurrence kept
    let (users, bad) = load_users(Some(&bv("8\n9\n8")));
    assert!(!bad);
    assert_eq!(users.len(), 2);
    assert!(users.contains(8));
    assert!(users.contains(9));
    assert_eq!(users.snapshot(), vec![8, 9]);
}

#[test]
fn extreme_ids_survive_the_users_snapshot() {
    let mut users = UsersSet::new();
    users.insert(i64::MIN);
    users.insert(i64::MAX);
    users.insert(0);
    let bytes = save_users(&users);
    assert_eq!(
        bytes,
        bv("-9223372036854775808\n9223372036854775807\n0")
    );
    let (back, bad) = load_users(Some(&bytes));
    assert!(!bad);
    assert_eq!(back.snapshot(), vec![i64::MIN, i64::MAX, 0]);
    // one past the range of a chat id is corrupt, not wrapped around
    let (empty, bad) = load_users(Some(&bv("9223372036854775808")));
    assert!(bad);
    assert_eq!(empty.len(), 0);
}

#[test]
fn register_only_once() {
    let mut users = UsersSet::new();
    assert!(users.insert(77));
    assert!(!users.insert(77));
    assert!(!users.insert(77));
    assert_eq!(users.len(), 1);
    assert_eq!(users.snapshot(), vec![77]);
}

#[test]
fn greeting_sent_only_on_first_contact() {
    let mut store = TodoStore::new();
    let mut users = UsersSet::new();
    let first = handle_command(&mut store, &mut users, 5, Command::Coin);
    assert_eq!(first.len(), 2);
    assert_eq!(first[0], Action::Greet);
    let second = handle_command(&mut store, &mut users, 5, Command::Coin);
    assert_eq!(second.len(), 1);
    assert!(second.iter().all(|a| *a != Action::Greet));
}

#[test]
fn handler_routes_each_command() {
    let mut store = TodoStore::new();
    let mut users = UsersSet::new();
    users.insert(1);
    assert_eq!(handle_command(&mut store, &mut users, 1, Command::Help), vec![Action::SendHelp]);
    assert_eq!(handle_command(&mut store, &mut users, 1, Command::Cat), vec![Action::FetchCat]);
    assert_eq!(
        handle_command(&mut store, &mut users, 1, Command::Define(bv("ostensible"))),
        vec![Action::FetchDefinition(bv("ostensible"))]
    );
    assert_eq!(
        handle_command(&mut store, &mut users, 1, Command::Useless),
        vec![Action::FetchUselessFact]
    );
    assert_eq!(
        handle_command(&mut store, &mut users, 1, Command::Weather),
        vec![Action::FetchWeather]
    );
    assert_eq!(handle_command(&mut store, &mut users, 1, Command::Dice), vec![Action::SendDice]);
    assert_eq!(
        handle_command(&mut store, &mut users, 1, Command::Coin),
        vec![Action::Reply(vec![240u8, 159, 170, 153])]
    );
    assert_eq!(
        handle_command(&mut store, &mut users, 1, Command::Todo(bv("x"))),
        vec![Action::ReplyHtml(bv("Added <u>x</u> to todo list"))]
    );
    assert_eq!(
        handle_command(&mut store, &mut users, 1, Command::List),
        vec![Action::ReplyHtml(bv("<u>Todo list:</u>\n1. x\n"))]
    );
}

#[test]
fn raw_url_rewrites_host_and_blob() {
    assert_eq!(
        raw_url(&bv("https://github.com/u/r/blob/main/src/lib.rs")),
        bv("https://raw.githubusercontent.com/u/r/main/src/lib.rs")
    );
    assert_eq!(raw_url(&bv("no rewrite here")), bv("no rewrite here"));
}

#[test]
fn cat_reply_never_fails_the_handler() {
    assert_eq!(cat_reply(Some(bv("https://cats/1.png"))), Action::SendPhotoUrl(bv("https://cats/1.png")));
    assert_eq!(cat_reply(None), Action::Reply(bv("Failed to fetch cat image.")));
}

#[test]
fn fixed_messages() {
    assert_eq!(greeting(&bv("sam")), bv("Hi sam!"));
    assert_eq!(
        startup_message(),
        bv("Bot started successfully. Use /help to see available commands.")
    );
    assert_eq!(shutdown_message(), bv("The bot is shutting down."));
}

#[test]
fn next_broadcast_is_tomorrow_8am() {
    // 2023-03-15 07:00:00: this morning's 08:00 is still ahead, yet the
    // scheduler deliberately targets tomorrow
    let now = LocalTime { date: Date { year: 2023, month: 3, day: 15 }, secs: 7 * 3600 };
    let (target, sleep) = next_broadcast(now);
    assert_eq!(target.date, Date { year: 2023, month: 3, day: 16 });
    assert_eq!(target.secs, 8 * 3600);
    assert_eq!(sleep, (86400 - 7 * 3600 + 8 * 3600) as u64);
    assert!(sleep > 0);

    // late evening
    let now = LocalTime { date: Date { year: 2023, month: 3, day: 15 }, secs: 86399 };
    let (target, sleep) = next_broadcast(now);
    assert_eq!(target.date, Date { year: 2023, month: 3, day: 16 });
    assert_eq!(sleep, 1 + 8 * 3600);
}

#[test]
fn next_day_handles_rollovers() {
    assert_eq!(
        next_day(Date { year: 2023, month: 1, day: 31 }),
        Date { year: 2023, month: 2, day: 1 }
    );
    assert_eq!(
        next_day(Date { year: 2023, month: 12, day: 31 }),
        Date { year: 2024, month: 1, day: 1 }
    );
    assert_eq!(
        next_day(Date { year: 2024, month: 2, day: 28 }),
        Date { year: 2024, month: 2, day: 29 }
    );
    assert_eq!(
        next_day(Date { year: 1900, month: 2, day: 28 }),
        Date { year: 1900, month: 3, day: 1 }
    );
    assert_eq!(
        next_day(Date { year: 2000, month: 2, day: 28 }),
        Date { year: 2000, month: 2, day: 29 }
    );
}

#[test]
fn next_day_agrees_with_chrono() {
    let samples = [
        (2023, 3, 15),
        (2023, 1, 31),
        (2023, 2, 28),
        (2024, 2, 28),
        (2024, 2, 29),
        (2023, 12, 31),
        (2100, 2, 28),
        (1999, 12, 31),
    ];
    for (y, m, d) in samples {
        let mine = next_day(Date { year: y as i64, month: m as u8, day: d as u8 });
        let theirs = chrono::NaiveDate::from_ymd_opt(y, m, d)
            .unwrap()
            .succ_opt()
            .unwrap();
        assert_eq!(mine.year, theirs.year() as i64);
        assert_eq!(mine.month as u32, theirs.month());
        assert_eq!(mine.day as u32, theirs.day());
    }
}

#[test]
fn local_now_is_a_valid_moment() {
    let now = local_now();
    assert!((1..=12).contains(&now.date.month));
    assert!((1..=31).contains(&now.date.day));
    assert!(now.secs < 86400);
    // the clock reads a present-day year, so the scheduler's bound holds
    assert!(now.date.year > 1970 && now.date.year < 300000);
}

#[test]
fn scheduler_skips_cycle_when_fetch_fails() {
    assert_eq!(
        scheduler_wake(Some(bv("Hyderabad: cloudy"))),
        SchedulerAction::Broadcast(bv("Good Morning!\n\nToday's weather in Hyderabad: cloudy"))
    );
    assert_eq!(scheduler_wake(None), SchedulerAction::Skip);
}

#[test]
fn broadcast_failure_does_not_stop_delivery() {
    let mut users = UsersSet::new();
    users.insert(111);
    users.insert(222);
    let mut b = Broadcast::begin(&users);
    assert_eq!(b.next_recipient(), Some(111));
    b.record(false); // delivery to 111 fails
    assert_eq!(b.next_recipient(), Some(222)); // 222 is still served
    b.record(true);
    assert_eq!(b.next_recipient(), None);
    assert_eq!(b.delivered(), vec![222]);
    assert_eq!(b.failed(), vec![111]);
}

#[test]
fn loaded_example_snapshot_lists_as_specified() {
    let (store, bad) = load_todos(Some(&bv("{\"111\": [\"buy milk\", \"call bob\"]}")));
    assert!(!bad);
    let rendered = render_list(&store.list_tasks(111));
    let text = String::from_utf8(rendered).unwrap();
    assert!(text.contains("1. buy milk"));
    assert!(text.contains("2. call bob"));
    let empty = render_list(&store.list_tasks(999));
    assert_eq!(empty, bv("<u>Todo list:</u>\n"));
}
