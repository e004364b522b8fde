use base64::Engine;
use invoicer::date::Date;
use invoicer::errors::InternalError;
use invoicer::teamwork::{entry_from_parts, TaskList, TimeEntry};
use invoicer::time_api::{current_date, date_from_ymd, page_request, FetchState, FetchStep};

fn d(year: i32, month: u32, day: u32) -> Date {
    Date { year, month, day }
}

fn entry_on(task: &str, date: Date) -> TimeEntry {
    TimeEntry {
        hours_spent: 1,
        minutes_spent: 0,
        task_list: TaskList { id: "L1".to_string(), name: "Dev".to_string() },
        task_name: task.to_string(),
        description: String::new(),
        date,
    }
}

fn page_of(n: usize, date: Date) -> Vec<TimeEntry> {
    let mut v = Vec::new();
    for i in 0..n {
        v.push(entry_on(&format!("task {}", i), date));
    }
    v
}

#[test]
fn page_request_builds_url_and_basic_auth() {
    let (url, auth) = page_request("key", "20240301", 3);
    assert_eq!(
        url,
        "https://codewonderland.teamwork.com/time_entries.json?pageSize=500&page=3&fromdate=20240301"
    );
    let expected = base64::engine::general_purpose::STANDARD.encode("key:f");
    assert_eq!(auth, format!("Basic {}", expected));
    assert_eq!(auth, "Basic a2V5OmY=");
}

#[test]
fn fetch_starts_at_window_with_page_zero() {
    let (state, req) = FetchState::start(d(2024, 3, 1));
    assert_eq!(req.from_date, "20240301");
    assert_eq!(req.page, 0);
    assert!(!req.sleep_before);
    assert_eq!(state.page, 0);
    assert_eq!(state.api_calls, 0);
    assert_eq!(state.entries.len(), 0);
}

#[test]
fn pagination_stops_after_first_short_page() {
    let (mut state, _req) = FetchState::start(d(2024, 3, 1));
    let step1 = state.advance(page_of(500, d(2024, 3, 2)));
    match step1 {
        FetchStep::Next(r) => {
            assert_eq!(r.page, 1);
            assert_eq!(r.from_date, "20240301");
            assert!(!r.sleep_before);
        },
        FetchStep::Done => panic!("a full page must ask for another"),
    }
    let step2 = state.advance(page_of(500, d(2024, 3, 3)));
    match step2 {
        FetchStep::Next(r) => assert_eq!(r.page, 2),
        FetchStep::Done => panic!("a full page must ask for another"),
    }
    let step3 = state.advance(page_of(200, d(2024, 3, 4)));
    assert!(matches!(step3, FetchStep::Done));
    // every entry of every page is kept
    assert_eq!(state.entries.len(), 1200);
    assert_eq!(state.entries[0].task_name, "task 0");
    assert_eq!(state.entries[1199].task_name, "task 199");
}

#[test]
fn page_ceiling_resets_and_advances_start_date() {
    let (mut state, _req) = FetchState::start(d(2024, 3, 1));
    state.page = 90;
    let step = state.advance(page_of(500, d(2024, 3, 17)));
    match step {
        FetchStep::Next(r) => {
            assert_eq!(r.page, 1);
            assert_eq!(r.from_date, "20240317");
        },
        FetchStep::Done => panic!("a full page must ask for another"),
    }
    assert_eq!(state.page, 1);
    assert_eq!(state.start_date, d(2024, 3, 17));
}

#[test]
fn rate_limit_pause_every_140th_call() {
    let (mut state, _req) = FetchState::start(d(2024, 3, 1));
    state.api_calls = 138;
    match state.advance(page_of(500, d(2024, 3, 2))) {
        FetchStep::Next(r) => assert!(!r.sleep_before),
        FetchStep::Done => panic!("a full page must ask for another"),
    }
    assert_eq!(state.api_calls, 139);
    match state.advance(page_of(500, d(2024, 3, 2))) {
        FetchStep::Next(r) => assert!(r.sleep_before),
        FetchStep::Done => panic!("a full page must ask for another"),
    }
    assert_eq!(state.api_calls, 0);
}

#[test]
fn short_page_leaves_counters_alone() {
    let (mut state, _req) = FetchState::start(d(2024, 3, 1));
    let step = state.advance(page_of(3, d(2024, 3, 2)));
    assert!(matches!(step, FetchStep::Done));
    assert_eq!(state.page, 0);
    assert_eq!(state.api_calls, 0);
    assert_eq!(state.entries.len(), 3);
}

#[test]
fn current_date_is_a_real_date() {
    let today = current_date().unwrap();
    assert!(today.month >= 1 && today.month <= 12);
    assert!(today.day >= 1 && today.day <= 31);
    assert!(today.year >= 2020);
}

fn s(x: &str) -> Option<String> {
    Some(x.to_string())
}

#[test]
fn entry_from_parts_reads_all_fields() {
    let e = entry_from_parts(
        s("2"),
        s("30"),
        s("L1"),
        s("Dev"),
        s("Fix bug"),
        s("patch"),
        s("2024-03-05T00:00:00Z"),
    )
    .unwrap();
    assert_eq!(e.hours_spent, 2);
    assert_eq!(e.minutes_spent, 30);
    assert_eq!(e.task_list.id, "L1");
    assert_eq!(e.task_list.name, "Dev");
    assert_eq!(e.task_name, "Fix bug");
    assert_eq!(e.description, "patch");
    assert_eq!(e.date, d(2024, 3, 5));
}

fn entry_parsing_field(r: Result<TimeEntry, InternalError>) -> String {
    match r {
        Err(InternalError::TimeEntryParsing(f)) => f,
        other => panic!("expected a time-entry parsing failure, got {:?}", other),
    }
}

#[test]
fn entry_from_parts_error_taxonomy_names_the_field() {
    let r = entry_from_parts(None, s("0"), s("L"), s("n"), s("t"), s(""), s("2024-03-05"));
    assert_eq!(entry_parsing_field(r), "hours");
    let r = entry_from_parts(s("x"), s("0"), s("L"), s("n"), s("t"), s(""), s("2024-03-05"));
    assert_eq!(entry_parsing_field(r), "hours");
    let r = entry_from_parts(s("1"), None, s("L"), s("n"), s("t"), s(""), s("2024-03-05"));
    assert_eq!(entry_parsing_field(r), "minutes");
    let r = entry_from_parts(s("1"), s("0"), None, s("n"), s("t"), s(""), s("2024-03-05"));
    assert_eq!(entry_parsing_field(r), "tasklistId");
    let r = entry_from_parts(s("1"), s("0"), s("L"), None, s("t"), s(""), s("2024-03-05"));
    assert_eq!(entry_parsing_field(r), "todo-list-name");
    let r = entry_from_parts(s("1"), s("0"), s("L"), s("n"), None, s(""), s("2024-03-05"));
    assert_eq!(entry_parsing_field(r), "todo-item-name");
    let r = entry_from_parts(s("1"), s("0"), s("L"), s("n"), s("t"), None, s("2024-03-05"));
    assert_eq!(entry_parsing_field(r), "description");
    let r = entry_from_parts(s("1"), s("0"), s("L"), s("n"), s("t"), s(""), None);
    assert_eq!(entry_parsing_field(r), "dateUserPerspective");
    let r = entry_from_parts(s("1"), s("0"), s("L"), s("n"), s("t"), s(""), s("03/05/2024"));
    assert!(matches!(r, Err(InternalError::DateParsing(_))));
}

#[test]
fn date_from_ymd_accepts_four_digit_years_only() {
    assert_eq!(date_from_ymd(2024, 3, 5).unwrap(), d(2024, 3, 5));
    assert_eq!(date_from_ymd(0, 1, 1).unwrap(), d(0, 1, 1));
    assert!(matches!(date_from_ymd(10000, 1, 1), Err(InternalError::DateParsing(_))));
    assert!(matches!(date_from_ymd(-1, 1, 1), Err(InternalError::DateParsing(_))));
}

#[test]
fn pagination_offsets_step_up_one_at_a_time() {
    let (mut state, first) = FetchState::start(d(2024, 3, 1));
    let mut offsets = vec![first.page];
    for day in 0..4u32 {
        match state.advance(page_of(500, d(2024, 3, day + 2))) {
            FetchStep::Next(r) => offsets.push(r.page),
            FetchStep::Done => panic!("a full page must ask for another"),
        }
    }
    assert_eq!(offsets, vec![0, 1, 2, 3, 4]);
}
