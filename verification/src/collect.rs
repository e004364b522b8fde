//! All-or-nothing collection and ordered partition of per-element
//! parse results: the document-level rules that catalog loading and
//! page parsing build on.
use vstd::prelude::*;
use crate::errors::InternalError;

verus! {

/// The payloads of the successful results, in order.
pub open spec fn ok_payloads<T>(rs: Seq<Result<T, InternalError>>) -> Seq<T>
    decreases rs.len(),
{
    if rs.len() == 0 {
        Seq::empty()
    } else {
        let p = ok_payloads(rs.drop_last());
        if rs.last() is Ok {
            p.push(rs.last()->Ok_0)
        } else {
            p
        }
    }
}

/// The payloads of the failed results, in order.
pub open spec fn err_payloads<T>(rs: Seq<Result<T, InternalError>>) -> Seq<InternalError>
    decreases rs.len(),
{
    if rs.len() == 0 {
        Seq::empty()
    } else {
        let p = err_payloads(rs.drop_last());
        if rs.last() is Err {
            p.push(rs.last()->Err_0)
        } else {
            p
        }
    }
}

/// What holds of every successful payload holds of every element of
/// `ok_payloads`.
pub proof fn lemma_ok_payloads_pred<T>(rs: Seq<Result<T, InternalError>>, p: spec_fn(T) -> bool)
    requires
        forall|i: int| 0 <= i < rs.len() && (#[trigger] rs[i]) is Ok ==> p(rs[i]->Ok_0),
    ensures
        forall|k: int| 0 <= k < ok_payloads(rs).len() ==> p(#[trigger] ok_payloads(rs)[k]),
    decreases rs.len(),
{
    if rs.len() > 0 {
        assert(forall|i: int|
            0 <= i < rs.drop_last().len() && (#[trigger] rs.drop_last()[i]) is Ok ==> p(
                rs.drop_last()[i]->Ok_0,
            ));
        lemma_ok_payloads_pred(rs.drop_last(), p);
        if rs.last() is Ok {
            let q = ok_payloads(rs.drop_last());
            assert(rs[rs.len() - 1] == rs.last());
            assert forall|k: int|
                0 <= k < ok_payloads(rs).len() implies p(#[trigger] ok_payloads(rs)[k]) by {
                if k < q.len() {
                    assert(ok_payloads(rs)[k] == q[k]);
                } else {
                    assert(ok_payloads(rs)[k] == rs.last()->Ok_0);
                }
            }
        } else {
            assert(ok_payloads(rs) == ok_payloads(rs.drop_last()));
        }
    }
}

/// What holds of every failure payload holds of every element of
/// `err_payloads`.
pub proof fn lemma_err_payloads_pred<T>(
    rs: Seq<Result<T, InternalError>>,
    p: spec_fn(InternalError) -> bool,
)
    requires
        forall|i: int| 0 <= i < rs.len() && (#[trigger] rs[i]) is Err ==> p(rs[i]->Err_0),
    ensures
        forall|k: int| 0 <= k < err_payloads(rs).len() ==> p(#[trigger] err_payloads(rs)[k]),
    decreases rs.len(),
{
    if rs.len() > 0 {
        assert(forall|i: int|
            0 <= i < rs.drop_last().len() && (#[trigger] rs.drop_last()[i]) is Err ==> p(
                rs.drop_last()[i]->Err_0,
            ));
        lemma_err_payloads_pred(rs.drop_last(), p);
        if rs.last() is Err {
            let q = err_payloads(rs.drop_last());
            assert(rs[rs.len() - 1] == rs.last());
            assert forall|k: int|
                0 <= k < err_payloads(rs).len() implies p(#[trigger] err_payloads(rs)[k]) by {
                if k < q.len() {
                    assert(err_payloads(rs)[k] == q[k]);
                } else {
                    assert(err_payloads(rs)[k] == rs.last()->Err_0);
                }
            }
        } else {
            assert(err_payloads(rs) == err_payloads(rs.drop_last()));
        }
    }
}

/// Collects per-element results all or nothing: every payload in
/// order when every element succeeded, else the first failure,
/// unchanged.
pub fn collect_results<T>(results: Vec<Result<T, InternalError>>) -> (r: Result<
    Vec<T>,
    InternalError,
>)
    ensures
        r is Ok <==> (forall|i: int| 0 <= i < results@.len() ==> (#[trigger] results@[i]) is Ok),
        r is Ok ==> r->Ok_0@ == results@.map_values(|x: Result<T, InternalError>| x->Ok_0),
        r is Err ==> exists|k: int|
            0 <= k < results@.len() && (#[trigger] results@[k]) is Err
                && r->Err_0 == (results@[k])->Err_0 && (forall|j: int|
                0 <= j < k ==> (#[trigger] results@[j]) is Ok),
{
    let ghost orig = results@;
    let mut rest = results;
    let n: usize = rest.len();
    assert(orig.len() == n);
    let mut out: Vec<T> = Vec::new();
    let mut i: usize = 0;
    while rest.len() > 0
        invariant
            orig.len() <= usize::MAX,
            orig == results@,
            i + rest.len() == orig.len(),
            rest@ =~= orig.skip(i as int),
            forall|j: int| 0 <= j < i ==> (#[trigger] orig[j]) is Ok,
            out@ == orig.take(i as int).map_values(|x: Result<T, InternalError>| x->Ok_0),
        decreases rest.len(),
    {
        let ghost before = rest@;
        let item = rest.remove(0);
        proof {
            assert(before[0] == orig[i as int]);
            assert forall|k: int|
                0 <= k < rest@.len() implies rest@[k] == #[trigger] (orig.skip(i as int + 1)[
            k]) by {
                assert(rest@[k] == before[k + 1]);
                assert(before[k + 1] == orig.skip(i as int)[k + 1]);
            }
            assert(rest@ =~= orig.skip(i as int + 1));
        }
        match item {
            Ok(v) => {
                out.push(v);
                proof {
                    assert(out@ =~= orig.take(i as int + 1).map_values(
                        |x: Result<T, InternalError>| x->Ok_0,
                    ));
                }
            },
            Err(e) => {
                proof {
                    assert(orig[i as int] is Err);
                }
                return Err(e);
            },
        }
        i = i + 1;
    }
    proof {
        assert(orig.take(orig.len() as int) =~= orig);
    }
    Ok(out)
}

/// Splits per-element results into the successes and the failures,
/// each keeping the element order.
pub fn partition_results<T>(results: Vec<Result<T, InternalError>>) -> (r: (
    Vec<T>,
    Vec<InternalError>,
))
    ensures
        r.0@ == ok_payloads(results@),
        r.1@ == err_payloads(results@),
{
    let ghost orig = results@;
    let mut rest = results;
    let n: usize = rest.len();
    assert(orig.len() == n);
    let mut oks: Vec<T> = Vec::new();
    let mut errs: Vec<InternalError> = Vec::new();
    let mut i: usize = 0;
    while rest.len() > 0
        invariant
            orig.len() <= usize::MAX,
            orig == results@,
            i + rest.len() == orig.len(),
            rest@ =~= orig.skip(i as int),
            oks@ == ok_payloads(orig.take(i as int)),
            errs@ == err_payloads(orig.take(i as int)),
        decreases rest.len(),
    {
        let ghost before = rest@;
        let item = rest.remove(0);
        proof {
            assert(before[0] == orig[i as int]);
            assert forall|k: int|
                0 <= k < rest@.len() implies rest@[k] == #[trigger] (orig.skip(i as int + 1)[
            k]) by {
                assert(rest@[k] == before[k + 1]);
                assert(before[k + 1] == orig.skip(i as int)[k + 1]);
            }
            assert(rest@ =~= orig.skip(i as int + 1));
            assert(orig.take(i as int + 1).drop_last() =~= orig.take(i as int));
            assert(orig.take(i as int + 1).last() == orig[i as int]);
        }
        match item {
            Ok(v) => oks.push(v),
            Err(e) => errs.push(e),
        }
        i = i + 1;
    }
    proof {
        assert(orig.take(orig.len() as int) =~= orig);
    }
    (oks, errs)
}

} // verus!
