use invoicer::builder::{
    build_invoices, bucket_total_minutes, client_total_minutes, clients_renderable,
};
use invoicer::clients_parser::{associate_entries_with_clients, client_from_parts, read_clients};
use invoicer::collect::{collect_results, partition_results};
use invoicer::date::Date;
use invoicer::errors::InternalError;
use invoicer::num::parse_i32;
use invoicer::teamwork::{Client, TaskList, TimeEntry};
use invoicer::time_api::{parse_entries_page, prune_entries};
use invoicer::util::remove_duplicates;

fn d(year: i32, month: u32, day: u32) -> Date {
    Date { year, month, day }
}

fn entry(h: i32, m: i32, list_id: &str, list_name: &str, task: &str, desc: &str, date: Date) -> TimeEntry {
    TimeEntry {
        hours_spent: h,
        minutes_spent: m,
        task_list: TaskList { id: list_id.to_string(), name: list_name.to_string() },
        task_name: task.to_string(),
        description: desc.to_string(),
        date,
    }
}

fn acme_catalog() -> Vec<Client> {
    let json: serde_json::Value =
        serde_json::from_str(r#"[{"name":"Acme","lists":[{"id":"L1","name":"Dev"}]}]"#).unwrap();
    read_clients(&json).unwrap()
}

#[test]
fn parse_i32_accepts_plain_integers() {
    assert_eq!(parse_i32("0"), Some(0));
    assert_eq!(parse_i32("42"), Some(42));
    assert_eq!(parse_i32("-5"), Some(-5));
    assert_eq!(parse_i32("+7"), Some(7));
    assert_eq!(parse_i32("2147483647"), Some(2147483647));
    assert_eq!(parse_i32("-2147483648"), Some(-2147483648));
    assert_eq!(parse_i32("007"), Some(7));
}

#[test]
fn parse_i32_rejects_bad_input() {
    assert_eq!(parse_i32(""), None);
    assert_eq!(parse_i32("-"), None);
    assert_eq!(parse_i32("+"), None);
    assert_eq!(parse_i32("12a"), None);
    assert_eq!(parse_i32(" 12"), None);
    assert_eq!(parse_i32("2147483648"), None);
    assert_eq!(parse_i32("-2147483649"), None);
}

#[test]
fn dedup_collapses_exact_duplicates() {
    let a = entry(1, 0, "L1", "Dev", "t", "x", d(2024, 3, 5));
    let a2 = entry(1, 0, "L1", "Dev", "t", "x", d(2024, 3, 5));
    let b = entry(2, 0, "L1", "Dev", "t", "x", d(2024, 3, 5));
    let r = remove_duplicates(vec![a, a2, b]);
    assert_eq!(r.len(), 2);
    assert_eq!(r[0], entry(1, 0, "L1", "Dev", "t", "x", d(2024, 3, 5)));
    assert_eq!(r[1], entry(2, 0, "L1", "Dev", "t", "x", d(2024, 3, 5)));
}

#[test]
fn dedup_is_idempotent() {
    let a = entry(1, 0, "L1", "Dev", "t", "x", d(2024, 3, 5));
    let a2 = entry(1, 0, "L1", "Dev", "t", "x", d(2024, 3, 5));
    let b = entry(2, 15, "L2", "Ops", "u", "y", d(2024, 3, 6));
    let once = remove_duplicates(vec![a, a2, b]);
    let again: Vec<TimeEntry> = remove_duplicates(
        once.iter().map(|e| entry(
            e.hours_spent,
            e.minutes_spent,
            &e.task_list.id,
            &e.task_list.name,
            &e.task_name,
            &e.description,
            e.date,
        )).collect(),
    );
    assert_eq!(once, again);
}

#[test]
fn dedup_is_order_independent_as_sets() {
    let a = entry(1, 0, "L1", "Dev", "t", "x", d(2024, 3, 5));
    let b = entry(2, 15, "L2", "Ops", "u", "y", d(2024, 3, 6));
    let a2 = entry(1, 0, "L1", "Dev", "t", "x", d(2024, 3, 5));
    let fwd = remove_duplicates(vec![a, b]);
    let rev = remove_duplicates(vec![
        entry(2, 15, "L2", "Ops", "u", "y", d(2024, 3, 6)),
        a2,
        entry(2, 15, "L2", "Ops", "u", "y", d(2024, 3, 6)),
    ]);
    assert_eq!(fwd.len(), rev.len());
    for e in &fwd {
        assert!(rev.iter().any(|x| x == e));
    }
    for e in &rev {
        assert!(fwd.iter().any(|x| x == e));
    }
}

#[test]
fn prune_keeps_only_target_month() {
    let in1 = entry(1, 0, "L1", "Dev", "a", "", d(2024, 3, 5));
    let out1 = entry(1, 0, "L1", "Dev", "b", "", d(2024, 2, 29));
    let in2 = entry(1, 0, "L1", "Dev", "c", "", d(2023, 3, 9));
    let r = prune_entries(vec![in1, out1, in2], d(2024, 3, 1));
    assert_eq!(r.len(), 2);
    assert_eq!(r[0].task_name, "a");
    // the month-number-only rule keeps a same-month entry of another year
    assert_eq!(r[1].task_name, "c");
}

#[test]
fn prune_is_idempotent() {
    let e1 = entry(1, 0, "L1", "Dev", "a", "", d(2024, 3, 5));
    let e2 = entry(1, 0, "L1", "Dev", "b", "", d(2024, 4, 5));
    let once = prune_entries(vec![e1, e2], d(2024, 3, 1));
    let again: Vec<TimeEntry> = prune_entries(
        once.iter().map(|e| entry(
            e.hours_spent,
            e.minutes_spent,
            &e.task_list.id,
            &e.task_list.name,
            &e.task_name,
            &e.description,
            e.date,
        )).collect(),
        d(2024, 3, 1),
    );
    assert_eq!(once, again);
}

#[test]
fn association_places_entry_in_owning_client_with_canonical_name() {
    let mut clients = acme_catalog();
    // the service reported a stale label for the list
    let e = entry(2, 30, "L1", "Old Label", "Fix bug", "patch", d(2024, 3, 5));
    associate_entries_with_clients(&mut clients, vec![e]).unwrap();
    assert_eq!(clients.len(), 1);
    assert_eq!(clients[0].entries_by_list.len(), 1);
    let bucket = &clients[0].entries_by_list[0];
    assert_eq!(bucket.list.id, "L1");
    assert_eq!(bucket.list.name, "Dev");
    assert_eq!(bucket.entries.len(), 1);
    assert_eq!(bucket.entries[0].task_list.name, "Dev");
    assert_eq!(bucket.entries[0].task_name, "Fix bug");
}

#[test]
fn association_fails_on_unknown_list_id() {
    let mut clients = acme_catalog();
    let known = entry(1, 0, "L1", "Dev", "a", "", d(2024, 3, 5));
    let unknown = entry(1, 0, "L9", "Ghost", "b", "", d(2024, 3, 6));
    let r = associate_entries_with_clients(&mut clients, vec![known, unknown]);
    assert!(matches!(r, Err(InternalError::ClientNotFound(_))));
    // the entry before the failure stays associated
    assert_eq!(clients[0].entries_by_list.len(), 1);
    assert_eq!(clients[0].entries_by_list[0].entries.len(), 1);
}

#[test]
fn association_groups_by_list_in_first_use_order() {
    let json: serde_json::Value = serde_json::from_str(
        r#"[{"name":"Acme","lists":[{"id":"L1","name":"Dev"},{"id":"L2","name":"Ops"}]}]"#,
    )
    .unwrap();
    let mut clients = read_clients(&json).unwrap();
    let e1 = entry(1, 0, "L2", "x", "a", "", d(2024, 3, 5));
    let e2 = entry(1, 0, "L1", "x", "b", "", d(2024, 3, 5));
    let e3 = entry(1, 0, "L2", "x", "c", "", d(2024, 3, 6));
    associate_entries_with_clients(&mut clients, vec![e1, e2, e3]).unwrap();
    let buckets = &clients[0].entries_by_list;
    assert_eq!(buckets.len(), 2);
    assert_eq!(buckets[0].list.name, "Ops");
    assert_eq!(buckets[0].entries.len(), 2);
    assert_eq!(buckets[1].list.name, "Dev");
    assert_eq!(buckets[1].entries.len(), 1);
}

#[test]
fn totals_sum_hours_and_minutes_over_all_lists() {
    let json: serde_json::Value = serde_json::from_str(
        r#"[{"name":"Acme","lists":[{"id":"L1","name":"Dev"},{"id":"L2","name":"Ops"}]}]"#,
    )
    .unwrap();
    let mut clients = read_clients(&json).unwrap();
    let e1 = entry(2, 30, "L1", "x", "a", "", d(2024, 3, 5));
    let e2 = entry(0, 45, "L2", "x", "b", "", d(2024, 3, 5));
    let e3 = entry(1, 0, "L1", "x", "c", "", d(2024, 3, 6));
    associate_entries_with_clients(&mut clients, vec![e1, e2, e3]).unwrap();
    assert_eq!(client_total_minutes(&clients[0]), 2 * 60 + 30 + 45 + 60);
    assert_eq!(bucket_total_minutes(&clients[0].entries_by_list[0]), 210);
    assert_eq!(bucket_total_minutes(&clients[0].entries_by_list[1]), 45);
}

#[test]
fn zero_time_clients_produce_no_invoice() {
    let json: serde_json::Value = serde_json::from_str(
        r#"[{"name":"Idle","lists":[{"id":"L1","name":"Dev"}]},
            {"name":"Zero","lists":[{"id":"L2","name":"Ops"}]},
            {"name":"Busy","lists":[{"id":"L3","name":"Work"}]}]"#,
    )
    .unwrap();
    let mut clients = read_clients(&json).unwrap();
    // Idle gets no entries; Zero gets only zero-duration entries
    let z = entry(0, 0, "L2", "x", "a", "", d(2024, 3, 5));
    let b = entry(1, 15, "L3", "x", "b", "", d(2024, 3, 5));
    associate_entries_with_clients(&mut clients, vec![z, b]).unwrap();
    let invoices = build_invoices(clients);
    assert_eq!(invoices.len(), 1);
    assert_eq!(invoices[0].client_name, "Busy");
}

#[test]
fn end_to_end_acme_invoice() {
    let mut clients = acme_catalog();
    let e = entry(2, 30, "L1", "whatever", "Fix bug", "patch", d(2024, 3, 5));
    associate_entries_with_clients(&mut clients, vec![e]).unwrap();
    let invoices = build_invoices(clients);
    assert_eq!(invoices.len(), 1);
    assert_eq!(invoices[0].client_name, "Acme");
    let text = &invoices[0].text;
    assert!(text.contains("Acme"));
    assert!(text.contains("Total Time: 2 hours, 30 minutes"));
    assert!(text.contains("Dev (2 hours, 30 minutes)"));
    assert!(text.contains("Tuesday, March 5"));
    assert!(text.contains("- Fix bug (2 hours, 30 minutes) - patch"));
}

#[test]
fn invoice_sorts_dates_by_day_of_month() {
    let mut clients = acme_catalog();
    let e1 = entry(1, 0, "L1", "x", "late", "", d(2024, 3, 20));
    let e2 = entry(1, 0, "L1", "x", "early", "", d(2024, 3, 4));
    associate_entries_with_clients(&mut clients, vec![e1, e2]).unwrap();
    let invoices = build_invoices(clients);
    let text = &invoices[0].text;
    let early = text.find("March 4").unwrap();
    let late = text.find("March 20").unwrap();
    assert!(early < late);
}

#[test]
fn invoice_renders_negative_durations_like_integer_division() {
    let mut clients = acme_catalog();
    let e = entry(-2, -10, "L1", "x", "credit", "refund", d(2024, 3, 5));
    associate_entries_with_clients(&mut clients, vec![e]).unwrap();
    let invoices = build_invoices(clients);
    // -130 minutes: truncating division gives -2 hours, -10 minutes
    assert!(invoices[0].text.contains("Total Time: -2 hours, -10 minutes"));
}

#[test]
fn renderability_guard_checks_dates() {
    let mut clients = acme_catalog();
    let e = entry(1, 0, "L1", "Dev", "a", "", d(2024, 3, 5));
    associate_entries_with_clients(&mut clients, vec![e]).unwrap();
    assert!(clients_renderable(&clients));
    clients[0].entries_by_list[0].entries[0].date = d(2024, 2, 30);
    assert!(!clients_renderable(&clients));
}

fn json_parsing_field(r: Result<Vec<Client>, InternalError>) -> String {
    match r {
        Err(InternalError::JsonParsing(f)) => f,
        other => panic!("expected a JSON parsing failure, got {:?}", other),
    }
}

#[test]
fn read_clients_rejects_malformed_documents_naming_the_field() {
    let not_array: serde_json::Value = serde_json::from_str(r#"{"name":"x"}"#).unwrap();
    assert_eq!(json_parsing_field(read_clients(&not_array)), "clients");
    let missing_name: serde_json::Value =
        serde_json::from_str(r#"[{"lists":[{"id":"a","name":"b"}]}]"#).unwrap();
    assert_eq!(json_parsing_field(read_clients(&missing_name)), "name");
    let missing_lists: serde_json::Value = serde_json::from_str(r#"[{"name":"x"}]"#).unwrap();
    assert_eq!(json_parsing_field(read_clients(&missing_lists)), "lists");
    let missing_list_id: serde_json::Value =
        serde_json::from_str(r#"[{"name":"x","lists":[{"name":"b"}]}]"#).unwrap();
    assert_eq!(json_parsing_field(read_clients(&missing_list_id)), "id");
    let missing_list_name: serde_json::Value =
        serde_json::from_str(r#"[{"name":"x","lists":[{"id":"a"}]}]"#).unwrap();
    assert_eq!(json_parsing_field(read_clients(&missing_list_name)), "name");
}

#[test]
fn parse_entries_page_reads_and_skips() {
    let page: serde_json::Value = serde_json::from_str(
        r#"{"time-entries":[
            {"hours":"2","minutes":"30","tasklistId":"L1","todo-list-name":"Dev",
             "todo-item-name":"Fix bug","description":"patch",
             "dateUserPerspective":"2024-03-05T08:00:00Z"},
            {"hours":"oops","minutes":"0","tasklistId":"L1","todo-list-name":"Dev",
             "todo-item-name":"Bad","description":"",
             "dateUserPerspective":"2024-03-06"}
        ]}"#,
    )
    .unwrap();
    let (entries, skipped) = parse_entries_page(&page).unwrap();
    assert_eq!(entries.len(), 1);
    assert_eq!(entries[0].hours_spent, 2);
    assert_eq!(entries[0].minutes_spent, 30);
    assert_eq!(entries[0].task_list.id, "L1");
    assert_eq!(entries[0].date, d(2024, 3, 5));
    // the element that did not parse comes back as a diagnostic
    assert_eq!(skipped.len(), 1);
    assert!(matches!(skipped[0], InternalError::TimeEntryParsing(_)));
}

#[test]
fn parse_entries_page_handles_shapes() {
    let empty: serde_json::Value = serde_json::from_str(r#"{"other":1}"#).unwrap();
    let (entries, skipped) = parse_entries_page(&empty).unwrap();
    assert_eq!(entries.len(), 0);
    assert_eq!(skipped.len(), 0);
    let bad: serde_json::Value = serde_json::from_str(r#"{"time-entries":5}"#).unwrap();
    assert!(matches!(parse_entries_page(&bad), Err(InternalError::JsonParsing(_))));
}

#[test]
fn client_from_parts_requires_the_name() {
    let lists = vec![TaskList { id: "L1".to_string(), name: "Dev".to_string() }];
    let c = client_from_parts(Some("Acme".to_string()), lists).unwrap();
    assert_eq!(c.name, "Acme");
    assert_eq!(c.lists.len(), 1);
    assert_eq!(c.lists[0].id, "L1");
    assert_eq!(c.lists[0].name, "Dev");
    assert_eq!(c.entries_by_list.len(), 0);
    match client_from_parts(None, Vec::new()) {
        Err(InternalError::JsonParsing(f)) => assert_eq!(f, "name"),
        other => panic!("expected a JSON parsing failure, got {:?}", other),
    }
}

fn list(id: &str) -> TaskList {
    TaskList { id: id.to_string(), name: id.to_string() }
}

#[test]
fn collect_results_is_all_or_nothing_in_order() {
    let all_ok: Vec<Result<TaskList, InternalError>> = vec![Ok(list("a")), Ok(list("b"))];
    let collected = collect_results(all_ok).unwrap();
    assert_eq!(collected.len(), 2);
    assert_eq!(collected[0].id, "a");
    assert_eq!(collected[1].id, "b");
    let mixed: Vec<Result<TaskList, InternalError>> = vec![
        Ok(list("a")),
        Err(InternalError::JsonParsing("first".to_string())),
        Err(InternalError::JsonParsing("second".to_string())),
    ];
    match collect_results(mixed) {
        Err(InternalError::JsonParsing(f)) => assert_eq!(f, "first"),
        other => panic!("expected the first failure, got {:?}", other),
    }
}

#[test]
fn partition_results_keeps_both_orders() {
    let mixed: Vec<Result<TaskList, InternalError>> = vec![
        Ok(list("a")),
        Err(InternalError::TimeEntryParsing("x".to_string())),
        Ok(list("b")),
        Err(InternalError::DateParsing("y".to_string())),
    ];
    let (oks, errs) = partition_results(mixed);
    assert_eq!(oks.len(), 2);
    assert_eq!(oks[0].id, "a");
    assert_eq!(oks[1].id, "b");
    assert_eq!(errs.len(), 2);
    assert!(matches!(errs[0], InternalError::TimeEntryParsing(_)));
    assert!(matches!(errs[1], InternalError::DateParsing(_)));
}
