//! Loading the client catalog and associating fetched entries with
//! clients through their task lists.
use vstd::prelude::*;
use vstd::string::*;
use crate::collect::collect_results;
use crate::errors::InternalError;
use crate::jsonval::{json_as_array, json_get, json_get_str};
use crate::teamwork::{
    task_list_from_parts, BucketView, Client, ClientView, EntryView, TaskList, TaskListView,
    TimeEntriesByList, TimeEntry,
};

verus! {

/// Some list in `ls` carries the id.
pub open spec fn has_list_id(ls: Seq<TaskListView>, id: Seq<char>) -> bool {
    exists|j: int| 0 <= j < ls.len() && (#[trigger] ls[j]).id == id
}

/// Index of the first list in `ls` carrying the id.
pub open spec fn first_list_idx(ls: Seq<TaskListView>, id: Seq<char>) -> int
    decreases ls.len(),
{
    if ls.len() == 0 {
        0
    } else if ls[0].id == id {
        0
    } else {
        1 + first_list_idx(ls.drop_first(), id)
    }
}

pub proof fn lemma_first_list_idx(ls: Seq<TaskListView>, id: Seq<char>)
    requires
        has_list_id(ls, id),
    ensures
        0 <= first_list_idx(ls, id) < ls.len(),
        ls[first_list_idx(ls, id)].id == id,
        forall|j: int| 0 <= j < first_list_idx(ls, id) ==> (#[trigger] ls[j]).id != id,
    decreases ls.len(),
{
    if ls[0].id != id {
        let w = choose|j: int| 0 <= j < ls.len() && (#[trigger] ls[j]).id == id;
        assert(ls.drop_first()[w - 1].id == id);
        lemma_first_list_idx(ls.drop_first(), id);
        let k = first_list_idx(ls.drop_first(), id);
        assert(ls[k + 1] == ls.drop_first()[k]);
        assert forall|j: int| 0 <= j < k + 1 implies (#[trigger] ls[j]).id != id by {
            if j > 0 {
                assert(ls.drop_first()[j - 1].id != id);
            }
        }
    }
}

/// The client owns a list with the id.
pub open spec fn client_has_list(c: ClientView, id: Seq<char>) -> bool {
    has_list_id(c.lists, id)
}

/// Some client of the catalog owns a list with the id.
pub open spec fn catalog_has_list(cs: Seq<ClientView>, id: Seq<char>) -> bool {
    exists|i: int| 0 <= i < cs.len() && client_has_list(#[trigger] cs[i], id)
}

/// Index of the first client owning a list with the id.
pub open spec fn first_client_idx(cs: Seq<ClientView>, id: Seq<char>) -> int
    decreases cs.len(),
{
    if cs.len() == 0 {
        0
    } else if client_has_list(cs[0], id) {
        0
    } else {
        1 + first_client_idx(cs.drop_first(), id)
    }
}

pub proof fn lemma_first_client_idx(cs: Seq<ClientView>, id: Seq<char>)
    requires
        catalog_has_list(cs, id),
    ensures
        0 <= first_client_idx(cs, id) < cs.len(),
        client_has_list(cs[first_client_idx(cs, id)], id),
        forall|j: int| 0 <= j < first_client_idx(cs, id) ==> !client_has_list(#[trigger] cs[j], id),
    decreases cs.len(),
{
    if !client_has_list(cs[0], id) {
        let w = choose|i: int| 0 <= i < cs.len() && client_has_list(#[trigger] cs[i], id);
        assert(client_has_list(cs.drop_first()[w - 1], id));
        lemma_first_client_idx(cs.drop_first(), id);
        let k = first_client_idx(cs.drop_first(), id);
        assert(cs[k + 1] == cs.drop_first()[k]);
        assert forall|j: int| 0 <= j < k + 1 implies !client_has_list(#[trigger] cs[j], id) by {
            if j > 0 {
                assert(!client_has_list(cs.drop_first()[j - 1], id));
            }
        }
    }
}

/// Some bucket in `bs` is keyed by the id.
pub open spec fn has_bucket_id(bs: Seq<BucketView>, id: Seq<char>) -> bool {
    exists|j: int| 0 <= j < bs.len() && (#[trigger] bs[j]).list.id == id
}

/// Index of the first bucket in `bs` keyed by the id.
pub open spec fn first_bucket_idx(bs: Seq<BucketView>, id: Seq<char>) -> int
    decreases bs.len(),
{
    if bs.len() == 0 {
        0
    } else if bs[0].list.id == id {
        0
    } else {
        1 + first_bucket_idx(bs.drop_first(), id)
    }
}

pub proof fn lemma_first_bucket_idx(bs: Seq<BucketView>, id: Seq<char>)
    requires
        has_bucket_id(bs, id),
    ensures
        0 <= first_bucket_idx(bs, id) < bs.len(),
        bs[first_bucket_idx(bs, id)].list.id == id,
        forall|j: int| 0 <= j < first_bucket_idx(bs, id) ==> (#[trigger] bs[j]).list.id != id,
    decreases bs.len(),
{
    if bs[0].list.id != id {
        let w = choose|j: int| 0 <= j < bs.len() && (#[trigger] bs[j]).list.id == id;
        assert(bs.drop_first()[w - 1].list.id == id);
        lemma_first_bucket_idx(bs.drop_first(), id);
        let k = first_bucket_idx(bs.drop_first(), id);
        assert(bs[k + 1] == bs.drop_first()[k]);
        assert forall|j: int| 0 <= j < k + 1 implies (#[trigger] bs[j]).list.id != id by {
            if j > 0 {
                assert(bs.drop_first()[j - 1].list.id != id);
            }
        }
    }
}

/// The catalog's canonical list for the id within one client: the
/// first list of the client carrying it.
pub open spec fn spec_canonical_list(c: ClientView, id: Seq<char>) -> TaskListView {
    c.lists[first_list_idx(c.lists, id)]
}

/// The entry as it is stored: its list metadata replaced with the
/// client's canonical list.
pub open spec fn spec_canonical_entry(c: ClientView, e: EntryView) -> EntryView {
    EntryView {
        hours: e.hours,
        minutes: e.minutes,
        task_list: spec_canonical_list(c, e.task_list.id),
        task_name: e.task_name,
        description: e.description,
        date: e.date,
    }
}

/// One association step within the owning client: the entry, under the
/// canonical list, appended to the bucket of its list, with the bucket
/// created on first use.
pub open spec fn spec_add_entry(c: ClientView, e: EntryView) -> ClientView {
    let id = e.task_list.id;
    let canon = spec_canonical_list(c, id);
    let e2 = spec_canonical_entry(c, e);
    if has_bucket_id(c.buckets, id) {
        let bi = first_bucket_idx(c.buckets, id);
        let b = c.buckets[bi];
        ClientView {
            name: c.name,
            lists: c.lists,
            buckets: c.buckets.update(
                bi,
                BucketView { list: b.list, entries: b.entries.push(e2) },
            ),
        }
    } else {
        ClientView {
            name: c.name,
            lists: c.lists,
            buckets: c.buckets.push(BucketView { list: canon, entries: seq![e2] }),
        }
    }
}

/// Association of the entries with the clients, in order: each entry
/// goes to the first client owning its list id; an entry no client
/// owns stops the run there and is reported. The first component is
/// the catalog as far as it got, the second the offending entry.
pub open spec fn spec_associate(cs: Seq<ClientView>, es: Seq<EntryView>) -> (
    Seq<ClientView>,
    Option<EntryView>,
)
    decreases es.len(),
{
    if es.len() == 0 {
        (cs, None::<EntryView>)
    } else if !catalog_has_list(cs, es[0].task_list.id) {
        (cs, Some(es[0]))
    } else {
        let ci = first_client_idx(cs, es[0].task_list.id);
        spec_associate(cs.update(ci, spec_add_entry(cs[ci], es[0])), es.drop_first())
    }
}

/// Association never touches a client's name or lists.
pub proof fn lemma_associate_preserves_lists(cs: Seq<ClientView>, es: Seq<EntryView>)
    ensures
        spec_associate(cs, es).0.len() == cs.len(),
        forall|i: int|
            0 <= i < cs.len() ==> (#[trigger] spec_associate(cs, es).0[i]).lists == cs[i].lists
                && spec_associate(cs, es).0[i].name == cs[i].name,
    decreases es.len(),
{
    if es.len() > 0 && catalog_has_list(cs, es[0].task_list.id) {
        let ci = first_client_idx(cs, es[0].task_list.id);
        lemma_first_client_idx(cs, es[0].task_list.id);
        let cs2 = cs.update(ci, spec_add_entry(cs[ci], es[0]));
        lemma_associate_preserves_lists(cs2, es.drop_first());
    }
}

proof fn lemma_catalog_same_lists(cs1: Seq<ClientView>, cs2: Seq<ClientView>, id: Seq<char>)
    requires
        cs1.len() == cs2.len(),
        forall|i: int| 0 <= i < cs1.len() ==> (#[trigger] cs1[i]).lists == cs2[i].lists,
    ensures
        catalog_has_list(cs1, id) == catalog_has_list(cs2, id),
{
    if catalog_has_list(cs1, id) {
        let w = choose|i: int| 0 <= i < cs1.len() && client_has_list(#[trigger] cs1[i], id);
        assert(client_has_list(cs2[w], id));
    }
    if catalog_has_list(cs2, id) {
        let w = choose|i: int| 0 <= i < cs2.len() && client_has_list(#[trigger] cs2[i], id);
        assert(client_has_list(cs1[w], id));
    }
}

/// Association fails, never dropping an entry silently: it reports an
/// entry exactly when some entry's list id no client of the catalog
/// owns.
pub proof fn lemma_association_fails_iff_unknown(cs: Seq<ClientView>, es: Seq<EntryView>)
    ensures
        spec_associate(cs, es).1 is None <==> forall|k: int|
            0 <= k < es.len() ==> catalog_has_list(cs, (#[trigger] es[k]).task_list.id),
    decreases es.len(),
{
    if es.len() == 0 {
    } else if !catalog_has_list(cs, es[0].task_list.id) {
        assert(!catalog_has_list(cs, es[0].task_list.id));
    } else {
        let ci = first_client_idx(cs, es[0].task_list.id);
        lemma_first_client_idx(cs, es[0].task_list.id);
        let cs2 = cs.update(ci, spec_add_entry(cs[ci], es[0]));
        lemma_association_fails_iff_unknown(cs2, es.drop_first());
        assert forall|id: Seq<char>| true implies catalog_has_list(cs2, id) == catalog_has_list(
            cs,
            id,
        ) by {
            lemma_catalog_same_lists(cs2, cs, id);
        }
        if spec_associate(cs, es).1 is None {
            assert forall|k: int|
                0 <= k < es.len() implies catalog_has_list(cs, (#[trigger] es[k]).task_list.id) by {
                if k > 0 {
                    assert(es.drop_first()[k - 1] == es[k]);
                    assert(catalog_has_list(cs2, es[k].task_list.id));
                }
            }
        } else {
            let w = choose|k: int|
                0 <= k < es.drop_first().len() && !catalog_has_list(
                    cs2,
                    (#[trigger] es.drop_first()[k]).task_list.id,
                );
            assert(es[w + 1] == es.drop_first()[w]);
            assert(!catalog_has_list(cs, es[w + 1].task_list.id));
        }
    }
}

/// Some bucket of the client carries the list `l` and holds the
/// entry `x`.
pub open spec fn client_bucket_holds(c: ClientView, l: TaskListView, x: EntryView) -> bool {
    exists|bj: int|
        0 <= bj < c.buckets.len() && (#[trigger] c.buckets[bj]).list == l
            && c.buckets[bj].entries.contains(x)
}

/// Every bucket of the client is keyed by the canonical list of its
/// id. Association alone builds buckets, and only from the catalog's
/// lists; a client fresh from the catalog, with no buckets yet,
/// satisfies this vacuously.
pub open spec fn buckets_canonical(c: ClientView) -> bool {
    forall|bj: int|
        0 <= bj < c.buckets.len() ==> has_list_id(c.lists, (#[trigger] c.buckets[bj]).list.id)
            && c.buckets[bj].list == spec_canonical_list(c, c.buckets[bj].list.id)
}

proof fn lemma_add_entry_preserves_membership(
    c: ClientView,
    e: EntryView,
    l0: TaskListView,
    x: EntryView,
)
    requires
        client_bucket_holds(c, l0, x),
    ensures
        client_bucket_holds(spec_add_entry(c, e), l0, x),
{
    let id = e.task_list.id;
    let w = choose|bj: int|
        0 <= bj < c.buckets.len() && (#[trigger] c.buckets[bj]).list == l0
            && c.buckets[bj].entries.contains(x);
    let c2 = spec_add_entry(c, e);
    if has_bucket_id(c.buckets, id) {
        let bi = first_bucket_idx(c.buckets, id);
        lemma_first_bucket_idx(c.buckets, id);
        if w == bi {
            let wi = choose|n: int| 0 <= n < c.buckets[w].entries.len() && c.buckets[w].entries[n] == x;
            assert(c2.buckets[w].entries[wi] == x);
            assert(c2.buckets[w].list == l0);
            assert(c2.buckets[w].entries.contains(x));
        } else {
            assert(c2.buckets[w] == c.buckets[w]);
        }
    } else {
        assert(c2.buckets[w] == c.buckets[w]);
    }
}

/// Adding an entry keeps every bucket canonical: the one bucket it
/// touches keeps or receives the canonical list, and the lists that
/// define canonicity do not change.
proof fn lemma_add_entry_preserves_canonical(c: ClientView, e: EntryView)
    requires
        buckets_canonical(c),
        client_has_list(c, e.task_list.id),
    ensures
        buckets_canonical(spec_add_entry(c, e)),
{
    let id = e.task_list.id;
    let c2 = spec_add_entry(c, e);
    assert(c2.lists == c.lists);
    lemma_first_list_idx(c.lists, id);
    if has_bucket_id(c.buckets, id) {
        let bi = first_bucket_idx(c.buckets, id);
        lemma_first_bucket_idx(c.buckets, id);
        assert forall|bj: int|
            0 <= bj < c2.buckets.len() implies has_list_id(
            c2.lists,
            (#[trigger] c2.buckets[bj]).list.id,
        ) && c2.buckets[bj].list == spec_canonical_list(c2, c2.buckets[bj].list.id) by {
            assert(c2.buckets[bj].list == c.buckets[bj].list);
            assert(has_list_id(c.lists, c.buckets[bj].list.id));
        }
    } else {
        assert forall|bj: int|
            0 <= bj < c2.buckets.len() implies has_list_id(
            c2.lists,
            (#[trigger] c2.buckets[bj]).list.id,
        ) && c2.buckets[bj].list == spec_canonical_list(c2, c2.buckets[bj].list.id) by {
            if bj < c.buckets.len() {
                assert(c2.buckets[bj] == c.buckets[bj]);
                assert(has_list_id(c.lists, c.buckets[bj].list.id));
            } else {
                assert(c2.buckets[bj].list == spec_canonical_list(c, id));
                assert(c2.buckets[bj].list.id == id);
            }
        }
    }
}

proof fn lemma_add_entry_adds(c: ClientView, e: EntryView)
    requires
        client_has_list(c, e.task_list.id),
        buckets_canonical(c),
    ensures
        client_bucket_holds(
            spec_add_entry(c, e),
            spec_canonical_list(c, e.task_list.id),
            spec_canonical_entry(c, e),
        ),
{
    let id = e.task_list.id;
    let e2 = spec_canonical_entry(c, e);
    let c2 = spec_add_entry(c, e);
    lemma_first_list_idx(c.lists, id);
    if has_bucket_id(c.buckets, id) {
        let bi = first_bucket_idx(c.buckets, id);
        lemma_first_bucket_idx(c.buckets, id);
        assert(c.buckets[bi].list == spec_canonical_list(c, id));
        assert(c2.buckets[bi].list == spec_canonical_list(c, id));
        assert(c2.buckets[bi].entries.last() == e2);
        assert(c2.buckets[bi].entries.contains(e2));
    } else {
        let bi = c.buckets.len() as int;
        assert(c2.buckets[bi].list == spec_canonical_list(c, id));
        assert(c2.buckets[bi].entries[0] == e2);
        assert(c2.buckets[bi].entries.contains(e2));
    }
}

proof fn lemma_associate_preserves_membership(
    cs: Seq<ClientView>,
    es: Seq<EntryView>,
    i: int,
    l0: TaskListView,
    x: EntryView,
)
    requires
        0 <= i < cs.len(),
        client_bucket_holds(cs[i], l0, x),
    ensures
        client_bucket_holds(spec_associate(cs, es).0[i], l0, x),
    decreases es.len(),
{
    lemma_associate_preserves_lists(cs, es);
    if es.len() > 0 && catalog_has_list(cs, es[0].task_list.id) {
        let ci = first_client_idx(cs, es[0].task_list.id);
        lemma_first_client_idx(cs, es[0].task_list.id);
        let cs2 = cs.update(ci, spec_add_entry(cs[ci], es[0]));
        if i == ci {
            lemma_add_entry_preserves_membership(cs[ci], es[0], l0, x);
        }
        lemma_associate_preserves_membership(cs2, es.drop_first(), i, l0, x);
    }
}

/// Association is deterministic in bucket membership: an entry whose
/// list id exactly one client owns ends up in that client's bucket
/// for that list. The bucket is keyed by the catalog's canonical
/// `{id, name}` list, and the stored entry carries that canonical
/// list too, the service-supplied name discarded.
pub proof fn lemma_association_deterministic(
    cs: Seq<ClientView>,
    es: Seq<EntryView>,
    k: int,
    ci: int,
)
    requires
        spec_associate(cs, es).1 is None,
        0 <= k < es.len(),
        0 <= ci < cs.len(),
        buckets_canonical(cs[ci]),
        client_has_list(cs[ci], es[k].task_list.id),
        forall|i: int|
            0 <= i < cs.len() && i != ci ==> !client_has_list(#[trigger] cs[i], es[k].task_list.id),
    ensures
        client_bucket_holds(
            spec_associate(cs, es).0[ci],
            spec_canonical_list(cs[ci], es[k].task_list.id),
            spec_canonical_entry(cs[ci], es[k]),
        ),
    decreases es.len(),
{
    let id0 = es[0].task_list.id;
    assert(catalog_has_list(cs, id0)) by {
        if !catalog_has_list(cs, id0) {
            assert(spec_associate(cs, es).1 is Some);
        }
    }
    let c0 = first_client_idx(cs, id0);
    lemma_first_client_idx(cs, id0);
    let cs2 = cs.update(c0, spec_add_entry(cs[c0], es[0]));
    if k == 0 {
        assert(c0 == ci);
        lemma_add_entry_adds(cs[ci], es[0]);
        lemma_associate_preserves_membership(
            cs2,
            es.drop_first(),
            ci,
            spec_canonical_list(cs[ci], id0),
            spec_canonical_entry(cs[ci], es[0]),
        );
    } else {
        assert(es.drop_first()[k - 1] == es[k]);
        let idk = es[k].task_list.id;
        if c0 == ci {
            lemma_add_entry_preserves_canonical(cs[ci], es[0]);
        }
        assert(buckets_canonical(cs2[ci]));
        assert(cs2[ci].lists == cs[ci].lists);
        assert(client_has_list(cs2[ci], idk));
        assert(forall|i: int|
            0 <= i < cs2.len() && i != ci ==> !client_has_list(#[trigger] cs2[i], idk));
        lemma_association_deterministic(cs2, es.drop_first(), k - 1, ci);
        assert(spec_canonical_entry(cs2[ci], es[k]) == spec_canonical_entry(cs[ci], es[k]));
        assert(spec_canonical_list(cs2[ci], idk) == spec_canonical_list(cs[ci], idk));
    }
}

/// A client from its extracted catalog fields: accepted exactly when
/// the name was there, carrying the given task lists in order and no
/// buckets yet; a missing name is the JSON-parsing failure naming it.
pub fn client_from_parts(name: Option<String>, lists: Vec<TaskList>) -> (r: Result<
    Client,
    InternalError,
>)
    ensures
        r is Ok <==> name is Some,
        r is Ok ==> r->Ok_0@.name == name->Some_0@ && r->Ok_0@.lists == lists@.map_values(
            |l: TaskList| l@,
        ) && r->Ok_0@.buckets.len() == 0,
        name is None ==> r is Err && r->Err_0 is JsonParsing && r->Err_0->JsonParsing_0@ == "name"@,
{
    let name = match name {
        Some(n) => n,
        None => {
            return Err(InternalError::JsonParsing(String::from_str("name")));
        },
    };
    Ok(Client { name, lists, entries_by_list: Vec::new() })
}

/// One client from one element of the catalog document; a missing or
/// mistyped field fails with a JSON-parsing error naming the field.
/// The name and the all-or-nothing list collection are assembled by
/// `client_from_parts` and `collect_results`, whose contracts fix the
/// result for every value the document reads gave.
pub fn client_from_json(v: &serde_json::Value) -> (r: Result<Client, InternalError>)
    ensures
        r is Ok ==> r->Ok_0@.buckets.len() == 0,
        r is Err ==> r->Err_0 is JsonParsing && (r->Err_0->JsonParsing_0@ == "name"@
            || r->Err_0->JsonParsing_0@ == "lists"@ || r->Err_0->JsonParsing_0@ == "id"@),
{
    let name = json_get_str(v, "name");
    if name.is_none() {
        return client_from_parts(name, Vec::new());
    }
    let lists_val = match json_get(v, "lists") {
        Some(l) => l,
        None => {
            return Err(InternalError::JsonParsing(String::from_str("lists")));
        },
    };
    let arr = match json_as_array(lists_val) {
        Some(a) => a,
        None => {
            return Err(InternalError::JsonParsing(String::from_str("lists")));
        },
    };
    let mut list_results: Vec<Result<TaskList, InternalError>> = Vec::new();
    let mut i: usize = 0;
    while i < arr.len()
        invariant
            forall|k: int|
                0 <= k < list_results@.len() ==> ((#[trigger] list_results@[k]) is Err
                    ==> list_results@[k]->Err_0 is JsonParsing
                    && (list_results@[k]->Err_0->JsonParsing_0@ == "id"@
                    || list_results@[k]->Err_0->JsonParsing_0@ == "name"@)),
        decreases arr.len() - i,
    {
        let id = json_get_str(&arr[i], "id");
        let list_name = json_get_str(&arr[i], "name");
        list_results.push(task_list_from_parts(id, list_name));
        i = i + 1;
    }
    let lists = match collect_results(list_results) {
        Ok(ls) => ls,
        Err(e) => {
            return Err(e);
        },
    };
    client_from_parts(name, lists)
}

/// The client catalog from its JSON document: an array of clients,
/// each with a name and its task lists, loaded all or nothing in
/// array order through `collect_results` — the whole load fails on
/// the first client that does not parse, and no partial list comes
/// back. Every loaded client starts with no buckets.
pub fn read_clients(v: &serde_json::Value) -> (r: Result<Vec<Client>, InternalError>)
    ensures
        r is Ok ==> forall|i: int|
            0 <= i < r->Ok_0@.len() ==> (#[trigger] r->Ok_0@[i])@.buckets.len() == 0,
        r is Err ==> r->Err_0 is JsonParsing && (r->Err_0->JsonParsing_0@ == "clients"@
            || r->Err_0->JsonParsing_0@ == "name"@ || r->Err_0->JsonParsing_0@ == "lists"@
            || r->Err_0->JsonParsing_0@ == "id"@),
{
    let arr = match json_as_array(v) {
        Some(a) => a,
        None => {
            return Err(InternalError::JsonParsing(String::from_str("clients")));
        },
    };
    let mut results: Vec<Result<Client, InternalError>> = Vec::new();
    let mut i: usize = 0;
    while i < arr.len()
        invariant
            forall|k: int|
                0 <= k < results@.len() ==> ((#[trigger] results@[k]) is Ok
                    ==> results@[k]->Ok_0@.buckets.len() == 0),
            forall|k: int|
                0 <= k < results@.len() ==> ((#[trigger] results@[k]) is Err
                    ==> results@[k]->Err_0 is JsonParsing
                    && (results@[k]->Err_0->JsonParsing_0@ == "name"@
                    || results@[k]->Err_0->JsonParsing_0@ == "lists"@
                    || results@[k]->Err_0->JsonParsing_0@ == "id"@)),
        decreases arr.len() - i,
    {
        results.push(client_from_json(&arr[i]));
        i = i + 1;
    }
    let ghost rs = results@;
    let clients = match collect_results(results) {
        Ok(cs) => cs,
        Err(e) => {
            return Err(e);
        },
    };
    proof {
        assert forall|k: int|
            0 <= k < clients@.len() implies (#[trigger] clients@[k])@.buckets.len() == 0 by {
            assert(clients@[k] == rs.map_values(|x: Result<Client, InternalError>| x->Ok_0)[k]);
            assert(rs[k] is Ok);
        }
    }
    Ok(clients)
}

/// Index of the first list of `lists` carrying the id, if any does.
fn find_list(lists: &Vec<TaskList>, id: &String) -> (r: Option<usize>)
    ensures
        r is Some <==> has_list_id(lists@.map_values(|l: TaskList| l@), id@),
        r matches Some(k) ==> k == first_list_idx(lists@.map_values(|l: TaskList| l@), id@),
{
    let ghost ls = lists@.map_values(|l: TaskList| l@);
    let mut i: usize = 0;
    while i < lists.len()
        invariant
            0 <= i <= lists@.len(),
            ls == lists@.map_values(|l: TaskList| l@),
            forall|j: int| 0 <= j < i ==> (#[trigger] ls[j]).id != id@,
        decreases lists.len() - i,
    {
        if lists[i].id == *id {
            proof {
                assert(ls[i as int].id == id@);
                lemma_first_list_idx(ls, id@);
                let k = first_list_idx(ls, id@);
                if k < i as int {
                    assert(ls[k].id != id@);
                }
            }
            return Some(i);
        }
        i = i + 1;
    }
    proof {
        if has_list_id(ls, id@) {
            let w = choose|j: int| 0 <= j < ls.len() && (#[trigger] ls[j]).id == id@;
            assert(ls[w].id != id@);
        }
    }
    None
}

/// Index of the first bucket of `buckets` keyed by the id, if any is.
fn find_bucket(buckets: &Vec<TimeEntriesByList>, id: &String) -> (r: Option<usize>)
    ensures
        r is Some <==> has_bucket_id(buckets@.map_values(|b: TimeEntriesByList| b@), id@),
        r matches Some(k) ==> k == first_bucket_idx(
            buckets@.map_values(|b: TimeEntriesByList| b@),
            id@,
        ),
{
    let ghost bs = buckets@.map_values(|b: TimeEntriesByList| b@);
    let mut i: usize = 0;
    while i < buckets.len()
        invariant
            0 <= i <= buckets@.len(),
            bs == buckets@.map_values(|b: TimeEntriesByList| b@),
            forall|j: int| 0 <= j < i ==> (#[trigger] bs[j]).list.id != id@,
        decreases buckets.len() - i,
    {
        if buckets[i].list.id == *id {
            proof {
                assert(bs[i as int].list.id == id@);
                lemma_first_bucket_idx(bs, id@);
                let k = first_bucket_idx(bs, id@);
                if k < i as int {
                    assert(bs[k].list.id != id@);
                }
            }
            return Some(i);
        }
        i = i + 1;
    }
    proof {
        if has_bucket_id(bs, id@) {
            let w = choose|j: int| 0 <= j < bs.len() && (#[trigger] bs[j]).list.id == id@;
            assert(bs[w].list.id != id@);
        }
    }
    None
}

/// Index of the first client of `clients` owning the id, if any does.
fn find_client(clients: &Vec<Client>, id: &String) -> (r: Option<usize>)
    ensures
        r is Some <==> catalog_has_list(clients@.map_values(|c: Client| c@), id@),
        r matches Some(k) ==> k == first_client_idx(clients@.map_values(|c: Client| c@), id@),
{
    let ghost cs = clients@.map_values(|c: Client| c@);
    let mut i: usize = 0;
    while i < clients.len()
        invariant
            0 <= i <= clients@.len(),
            cs == clients@.map_values(|c: Client| c@),
            forall|j: int| 0 <= j < i ==> !client_has_list(#[trigger] cs[j], id@),
        decreases clients.len() - i,
    {
        if find_list(&clients[i].lists, id).is_some() {
            proof {
                assert(client_has_list(cs[i as int], id@));
                lemma_first_client_idx(cs, id@);
                let k = first_client_idx(cs, id@);
                if k < i as int {
                    assert(!client_has_list(cs[k], id@));
                }
            }
            return Some(i);
        }
        proof {
            assert(!client_has_list(cs[i as int], id@));
        }
        i = i + 1;
    }
    proof {
        if catalog_has_list(cs, id@) {
            let w = choose|j: int| 0 <= j < cs.len() && client_has_list(#[trigger] cs[j], id@);
            assert(!client_has_list(cs[w], id@));
        }
    }
    None
}

/// Joins each entry to the first client owning its task list, in input
/// order: the entry, relabelled with the client's canonical list, is
/// appended to that client's bucket for the list, and the bucket is
/// created on the first entry. An entry whose list id no client owns
/// fails the run right there; entries before it stay associated.
pub fn associate_entries_with_clients(clients: &mut Vec<Client>, entries: Vec<TimeEntry>) -> (r:
    Result<(), InternalError>)
    ensures
        final(clients)@.map_values(|c: Client| c@) == spec_associate(
            old(clients)@.map_values(|c: Client| c@),
            entries@.map_values(|e: TimeEntry| e@),
        ).0,
        r is Ok <==> spec_associate(
            old(clients)@.map_values(|c: Client| c@),
            entries@.map_values(|e: TimeEntry| e@),
        ).1 is None,
        r is Err ==> r->Err_0 is ClientNotFound,
{
    let ghost cs0 = old(clients)@.map_values(|c: Client| c@);
    let ghost es0 = entries@.map_values(|e: TimeEntry| e@);
    let mut remaining = entries;
    let n: usize = remaining.len();
    assert(es0.len() == n);
    assert(es0.skip(0) =~= es0);
    let mut i: usize = 0;
    while remaining.len() > 0
        invariant
            es0.len() <= usize::MAX,
            i + remaining.len() == es0.len(),
            cs0 == old(clients)@.map_values(|c: Client| c@),
            es0 == entries@.map_values(|e: TimeEntry| e@),
            remaining@.map_values(|e: TimeEntry| e@) =~= es0.skip(i as int),
            spec_associate(cs0, es0) == spec_associate(
                clients@.map_values(|c: Client| c@),
                es0.skip(i as int),
            ),
        decreases remaining.len(),
    {
        let ghost pre_clients = clients@;
        let ghost cs_now = clients@.map_values(|c: Client| c@);
        let ghost before = remaining@;
        let e = remaining.remove(0);
        proof {
            assert(before.map_values(|x: TimeEntry| x@)[0] == e@);
            assert(e@ == es0.skip(i as int)[0]);
            assert forall|k: int|
                0 <= k < remaining@.len() implies remaining@.map_values(|x: TimeEntry| x@)[k]
                == #[trigger] (es0.skip(i as int + 1)[k]) by {
                assert(remaining@[k] == before[k + 1]);
                assert(before.map_values(|x: TimeEntry| x@)[k + 1] == es0.skip(i as int)[k + 1]);
            }
            assert(remaining@.map_values(|x: TimeEntry| x@) =~= es0.skip(i as int + 1));
            assert(es0.skip(i as int).drop_first() =~= es0.skip(i as int + 1));
        }
        let ci = match find_client(clients, &e.task_list.id) {
            Some(ci) => ci,
            None => {
                proof {
                    assert(!catalog_has_list(cs_now, e@.task_list.id));
                    assert(spec_associate(cs_now, es0.skip(i as int)) == (
                        cs_now,
                        Some(es0.skip(i as int)[0]),
                    ));
                }
                return Err(
                    InternalError::ClientNotFound(
                        String::from_str("no client found for list id "),
                    ),
                );
            },
        };
        let ghost id = e@.task_list.id;
        proof {
            lemma_first_client_idx(cs_now, id);
        }
        let mut client = clients.remove(ci);
        let ghost cv = client@;
        proof {
            assert(cv == cs_now[ci as int]);
            assert(client_has_list(cv, id));
        }
        let li = match find_list(&client.lists, &e.task_list.id) {
            Some(li) => li,
            None => {
                // unreachable: the client was found by this very list id
                proof {
                    assert(false);
                }
                return Err(InternalError::ClientNotFound(String::new()));
            },
        };
        proof {
            lemma_first_list_idx(cv.lists, id);
        }
        let canon = client.lists[li].duplicate();
        proof {
            assert(canon@ == spec_canonical_list(cv, id));
        }
        let mut e = e;
        e.task_list = canon.duplicate();
        proof {
            assert(e@ == spec_canonical_entry(cv, es0.skip(i as int)[0]));
        }
        match find_bucket(&client.entries_by_list, &canon.id) {
            Some(bi) => {
                proof {
                    lemma_first_bucket_idx(cv.buckets, id);
                }
                let ghost old_buckets = client.entries_by_list@;
                let mut bucket = client.entries_by_list.remove(bi);
                bucket.entries.push(e);
                client.entries_by_list.insert(bi, bucket);
                proof {
                    let bs = old_buckets.map_values(|b: TimeEntriesByList| b@);
                    let b0 = bs[bi as int];
                    assert(bucket@.entries =~= b0.entries.push(
                        spec_canonical_entry(cv, es0.skip(i as int)[0]),
                    ));
                    assert(client@.buckets =~= bs.update(bi as int, bucket@));
                    assert(client@ == spec_add_entry(cv, es0.skip(i as int)[0]));
                }
            },
            None => {
                let mut bucket_entries: Vec<TimeEntry> = Vec::new();
                bucket_entries.push(e);
                client.entries_by_list.push(
                    TimeEntriesByList { list: canon, entries: bucket_entries },
                );
                proof {
                    let bs = cv.buckets;
                    assert(bucket_entries@.map_values(|x: TimeEntry| x@) =~= seq![
                        spec_canonical_entry(cv, es0.skip(i as int)[0]),
                    ]);
                    assert(client@.buckets =~~= bs.push(
                        BucketView {
                            list: spec_canonical_list(cv, id),
                            entries: seq![spec_canonical_entry(cv, es0.skip(i as int)[0])],
                        },
                    ));
                    assert(client@ == spec_add_entry(cv, es0.skip(i as int)[0]));
                }
            },
        }
        let ghost new_cv = client@;
        clients.insert(ci, client);
        proof {
            assert forall|k: int|
                0 <= k < clients@.len() implies clients@.map_values(|c: Client| c@)[k]
                == #[trigger] (cs_now.update(ci as int, new_cv)[k]) by {
                if k != ci as int {
                    assert(clients@[k] == pre_clients[k]);
                    assert(cs_now[k] == pre_clients[k]@);
                }
            }
            assert(clients@.map_values(|c: Client| c@) =~= cs_now.update(ci as int, new_cv));
            assert(spec_associate(cs_now, es0.skip(i as int)) == spec_associate(
                cs_now.update(ci as int, spec_add_entry(cs_now[ci as int], es0.skip(i as int)[0])),
                es0.skip(i as int).drop_first(),
            ));
        }
        i = i + 1;
    }
    proof {
        assert(es0.skip(i as int) =~= Seq::<EntryView>::empty());
    }
    Ok(())
}

} // verus!
