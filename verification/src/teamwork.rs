//! The data model of the pipeline: task lists, time entries, the
//! per-list grouping buckets, and clients.
use vstd::prelude::*;
use vstd::string::*;
use crate::date::{Date, parse_date, spec_parse_date};
use crate::errors::InternalError;
use crate::num::{parse_i32, spec_parse_i32};

verus! {

/// Spec-level image of a task list.
pub ghost struct TaskListView {
    pub id: Seq<char>,
    pub name: Seq<char>,
}

/// A named bucket of work items in the time-tracking service,
/// identified by a stable id and a display name.
#[derive(Debug, Eq)]
pub struct TaskList {
    pub id: String,
    pub name: String,
}

impl View for TaskList {
    type V = TaskListView;

    open spec fn view(&self) -> TaskListView {
        TaskListView { id: self.id@, name: self.name@ }
    }
}

impl PartialEq for TaskList {
    fn eq(&self, other: &TaskList) -> (r: bool) {
        self.id == other.id && self.name == other.name
    }
}

impl vstd::std_specs::cmp::PartialEqSpecImpl for TaskList {
    open spec fn obeys_eq_spec() -> bool {
        true
    }

    open spec fn eq_spec(&self, other: &TaskList) -> bool {
        self@ == other@
    }
}

impl TaskList {
    /// A copy carrying the same id and name.
    pub fn duplicate(&self) -> (r: TaskList)
        ensures
            r@ == self@,
    {
        TaskList { id: self.id.clone(), name: self.name.clone() }
    }
}

/// Spec-level image of a time entry.
pub ghost struct EntryView {
    pub hours: int,
    pub minutes: int,
    pub task_list: TaskListView,
    pub task_name: Seq<char>,
    pub description: Seq<char>,
    pub date: Date,
}

/// One logged unit of work. A value type: two entries with equal
/// fields are the same entry, which deduplication collapses.
#[derive(Debug, Eq)]
pub struct TimeEntry {
    pub hours_spent: i32,
    pub minutes_spent: i32,
    pub task_list: TaskList,
    pub task_name: String,
    pub description: String,
    pub date: Date,
}

impl View for TimeEntry {
    type V = EntryView;

    open spec fn view(&self) -> EntryView {
        EntryView {
            hours: self.hours_spent as int,
            minutes: self.minutes_spent as int,
            task_list: self.task_list@,
            task_name: self.task_name@,
            description: self.description@,
            date: self.date,
        }
    }
}

impl PartialEq for TimeEntry {
    fn eq(&self, other: &TimeEntry) -> (r: bool) {
        self.hours_spent == other.hours_spent && self.minutes_spent == other.minutes_spent
            && self.task_list == other.task_list && self.task_name == other.task_name
            && self.description == other.description && self.date == other.date
    }
}

impl vstd::std_specs::cmp::PartialEqSpecImpl for TimeEntry {
    open spec fn obeys_eq_spec() -> bool {
        true
    }

    open spec fn eq_spec(&self, other: &TimeEntry) -> bool {
        self@ == other@
    }
}

/// Spec-level image of a grouping bucket.
pub ghost struct BucketView {
    pub list: TaskListView,
    pub entries: Seq<EntryView>,
}

/// The entries of one client that belong to one task list, in the
/// order association appended them.
#[derive(Debug)]
pub struct TimeEntriesByList {
    pub list: TaskList,
    pub entries: Vec<TimeEntry>,
}

impl View for TimeEntriesByList {
    type V = BucketView;

    open spec fn view(&self) -> BucketView {
        BucketView { list: self.list@, entries: self.entries@.map_values(|e: TimeEntry| e@) }
    }
}

/// Spec-level image of a client.
pub ghost struct ClientView {
    pub name: Seq<char>,
    pub lists: Seq<TaskListView>,
    pub buckets: Seq<BucketView>,
}

/// An invoicing recipient: the authoritative task lists it owns, and
/// the buckets that association fills.
#[derive(Debug)]
pub struct Client {
    pub name: String,
    pub lists: Vec<TaskList>,
    pub entries_by_list: Vec<TimeEntriesByList>,
}

impl View for Client {
    type V = ClientView;

    open spec fn view(&self) -> ClientView {
        ClientView {
            name: self.name@,
            lists: self.lists@.map_values(|l: TaskList| l@),
            buckets: self.entries_by_list@.map_values(|b: TimeEntriesByList| b@),
        }
    }
}

/// A task list from its two catalog fields; rejects a missing field.
pub fn task_list_from_parts(id: Option<String>, name: Option<String>) -> (r: Result<
    TaskList,
    InternalError,
>)
    ensures
        r is Ok <==> id is Some && name is Some,
        r is Ok ==> r->Ok_0@ == (TaskListView { id: id->Some_0@, name: name->Some_0@ }),
        r is Err ==> r->Err_0 is JsonParsing,
        id is None ==> r is Err && r->Err_0->JsonParsing_0@ == "id"@,
        id is Some && name is None ==> r is Err && r->Err_0->JsonParsing_0@ == "name"@,
{
    let id = match id {
        Some(i) => i,
        None => {
            return Err(InternalError::JsonParsing(String::from_str("id")));
        },
    };
    let name = match name {
        Some(n) => n,
        None => {
            return Err(InternalError::JsonParsing(String::from_str("name")));
        },
    };
    Ok(TaskList { id, name })
}

/// Both duration fields of a fetched entry are present and are
/// well-formed integers.
pub open spec fn spec_durations_ok(hours: Option<String>, minutes: Option<String>) -> bool {
    &&& hours is Some
    &&& spec_parse_i32(hours->Some_0@) is Some
    &&& minutes is Some
    &&& spec_parse_i32(minutes->Some_0@) is Some
}

/// All fields of a fetched entry are present and both durations are
/// well-formed integers; the date string is present but not yet read.
pub open spec fn spec_entry_fields_ok(
    hours: Option<String>,
    minutes: Option<String>,
    tasklist_id: Option<String>,
    list_name: Option<String>,
    task_name: Option<String>,
    description: Option<String>,
    date: Option<String>,
) -> bool {
    &&& hours is Some
    &&& spec_parse_i32(hours->Some_0@) is Some
    &&& minutes is Some
    &&& spec_parse_i32(minutes->Some_0@) is Some
    &&& tasklist_id is Some
    &&& list_name is Some
    &&& task_name is Some
    &&& description is Some
    &&& date is Some
}

/// The entry the seven fields denote when they are all well-formed.
pub open spec fn spec_entry_from_fields(
    hours: Option<String>,
    minutes: Option<String>,
    tasklist_id: Option<String>,
    list_name: Option<String>,
    task_name: Option<String>,
    description: Option<String>,
    date: Option<String>,
) -> EntryView {
    EntryView {
        hours: spec_parse_i32(hours->Some_0@)->Some_0 as int,
        minutes: spec_parse_i32(minutes->Some_0@)->Some_0 as int,
        task_list: TaskListView { id: tasklist_id->Some_0@, name: list_name->Some_0@ },
        task_name: task_name->Some_0@,
        description: description->Some_0@,
        date: spec_parse_date(date->Some_0@)->Some_0,
    }
}

/// A time entry from the seven fields of one fetched record. A missing
/// field or a malformed duration is a time-entry parsing failure; a
/// malformed date is a date parsing failure.
pub fn entry_from_parts(
    hours: Option<String>,
    minutes: Option<String>,
    tasklist_id: Option<String>,
    list_name: Option<String>,
    task_name: Option<String>,
    description: Option<String>,
    date: Option<String>,
) -> (r: Result<TimeEntry, InternalError>)
    ensures
        r is Ok <==> spec_entry_fields_ok(
            hours,
            minutes,
            tasklist_id,
            list_name,
            task_name,
            description,
            date,
        ) && spec_parse_date(date->Some_0@) is Some,
        r is Ok ==> r->Ok_0@ == spec_entry_from_fields(
            hours,
            minutes,
            tasklist_id,
            list_name,
            task_name,
            description,
            date,
        ) && r->Ok_0@.date.valid(),
        r is Err ==> (r->Err_0 is TimeEntryParsing <==> !spec_entry_fields_ok(
            hours,
            minutes,
            tasklist_id,
            list_name,
            task_name,
            description,
            date,
        )),
        r is Err ==> (r->Err_0 is DateParsing <==> spec_entry_fields_ok(
            hours,
            minutes,
            tasklist_id,
            list_name,
            task_name,
            description,
            date,
        ) && spec_parse_date(date->Some_0@) is None),
        hours is None || spec_parse_i32(hours->Some_0@) is None ==> r is Err
            && r->Err_0->TimeEntryParsing_0@ == "hours"@,
        hours is Some && spec_parse_i32(hours->Some_0@) is Some && (minutes is None
            || spec_parse_i32(minutes->Some_0@) is None) ==> r is Err
            && r->Err_0->TimeEntryParsing_0@ == "minutes"@,
        spec_durations_ok(hours, minutes) && tasklist_id is None ==> r is Err
            && r->Err_0->TimeEntryParsing_0@ == "tasklistId"@,
        spec_durations_ok(hours, minutes) && tasklist_id is Some && list_name is None ==> r is Err
            && r->Err_0->TimeEntryParsing_0@ == "todo-list-name"@,
        spec_durations_ok(hours, minutes) && tasklist_id is Some && list_name is Some
            && task_name is None ==> r is Err && r->Err_0->TimeEntryParsing_0@ == "todo-item-name"@,
        spec_durations_ok(hours, minutes) && tasklist_id is Some && list_name is Some
            && task_name is Some && description is None ==> r is Err
            && r->Err_0->TimeEntryParsing_0@ == "description"@,
        spec_durations_ok(hours, minutes) && tasklist_id is Some && list_name is Some
            && task_name is Some && description is Some && date is None ==> r is Err
            && r->Err_0->TimeEntryParsing_0@ == "dateUserPerspective"@,
{
    let hours_str = match hours {
        Some(h) => h,
        None => {
            return Err(InternalError::TimeEntryParsing(String::from_str("hours")));
        },
    };
    let hours_spent = match parse_i32(hours_str.as_str()) {
        Some(v) => v,
        None => {
            return Err(InternalError::TimeEntryParsing(String::from_str("hours")));
        },
    };
    let minutes_str = match minutes {
        Some(m) => m,
        None => {
            return Err(InternalError::TimeEntryParsing(String::from_str("minutes")));
        },
    };
    let minutes_spent = match parse_i32(minutes_str.as_str()) {
        Some(v) => v,
        None => {
            return Err(InternalError::TimeEntryParsing(String::from_str("minutes")));
        },
    };
    let list_id = match tasklist_id {
        Some(v) => v,
        None => {
            return Err(InternalError::TimeEntryParsing(String::from_str("tasklistId")));
        },
    };
    let list_label = match list_name {
        Some(v) => v,
        None => {
            return Err(InternalError::TimeEntryParsing(String::from_str("todo-list-name")));
        },
    };
    let task_name = match task_name {
        Some(v) => v,
        None => {
            return Err(InternalError::TimeEntryParsing(String::from_str("todo-item-name")));
        },
    };
    let description = match description {
        Some(v) => v,
        None => {
            return Err(InternalError::TimeEntryParsing(String::from_str("description")));
        },
    };
    let date_str = match date {
        Some(v) => v,
        None => {
            return Err(InternalError::TimeEntryParsing(String::from_str("dateUserPerspective")));
        },
    };
    let date = match parse_date(date_str.as_str()) {
        Ok(d) => d,
        Err(e) => {
            return Err(e);
        },
    };
    Ok(
        TimeEntry {
            hours_spent,
            minutes_spent,
            task_list: TaskList { id: list_id, name: list_label },
            task_name,
            description,
            date,
        },
    )
}

} // verus!
