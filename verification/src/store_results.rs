//! What the store holds after a change, told from the rows that it was given.

use crate::instant::Timestamp;
use crate::order::views;
use crate::rows::{built, CatalogRows, RowsModel};
use crate::store::{clamped, ends_at, imported, loaded, rebuilt, Store, StoredVersion};
use vstd::prelude::*;

verus! {

proof fn lemma_loaded_all(entries: Seq<(Seq<char>, RowsModel)>)
    ensures
        loaded(entries) is Ok <==> forall|i: int|
            0 <= i < entries.len() ==> built((#[trigger] entries[i]).0, entries[i].1) is Ok,
        loaded(entries) is Ok ==> {
            let m = loaded(entries)->Ok_0;
            &&& forall|v: Seq<char>| #[trigger]
                m.contains_key(v) ==> exists|i: int|
                    0 <= i < entries.len() && (#[trigger] entries[i]).0 == v && built(
                        v,
                        entries[i].1,
                    )->Ok_0 == m[v]
            &&& forall|i: int|
                0 <= i < entries.len() ==> m.contains_key((#[trigger] entries[i]).0)
        },
        loaded(entries) is Err ==> exists|i: int|
            {
                &&& 0 <= i < entries.len()
                &&& built((#[trigger] entries[i]).0, entries[i].1) is Err
                &&& loaded(entries)->Err_0 == built(entries[i].0, entries[i].1)->Err_0
                &&& forall|j: int| 0 <= j < i ==> built((#[trigger] entries[j]).0, entries[j].1) is Ok
            },
    decreases entries.len(),
{
    if entries.len() > 0 {
        let front = entries.drop_last();
        let n = entries.len() - 1;
        lemma_loaded_all(front);
        assert forall|i: int| 0 <= i < front.len() implies #[trigger] front[i] == entries[i] by {}
        assert(entries[n] == entries.last());
        if loaded(front) is Err {
            let i = choose|i: int|
                {
                    &&& 0 <= i < front.len()
                    &&& built((#[trigger] front[i]).0, front[i].1) is Err
                    &&& loaded(front)->Err_0 == built(front[i].0, front[i].1)->Err_0
                    &&& forall|j: int|
                        0 <= j < i ==> built((#[trigger] front[j]).0, front[j].1) is Ok
                };
            assert(built(entries[i].0, entries[i].1) is Err);
            assert forall|j: int| 0 <= j < i implies built(
                (#[trigger] entries[j]).0,
                entries[j].1,
            ) is Ok by {
                assert(built(front[j].0, front[j].1) is Ok);
            }
        } else {
            assert forall|j: int| 0 <= j < n implies built(
                (#[trigger] entries[j]).0,
                entries[j].1,
            ) is Ok by {
                assert(built(front[j].0, front[j].1) is Ok);
            }
            if loaded(entries) is Ok {
                let m = loaded(entries)->Ok_0;
                let had = loaded(front)->Ok_0;
                assert forall|v: Seq<char>| #[trigger] m.contains_key(v) implies exists|i: int|
                    0 <= i < entries.len() && (#[trigger] entries[i]).0 == v && built(
                        v,
                        entries[i].1,
                    )->Ok_0 == m[v] by {
                    if v == entries.last().0 {
                        assert(entries[n].0 == v);
                    } else {
                        assert(had.contains_key(v));
                        let i = choose|i: int|
                            0 <= i < front.len() && (#[trigger] front[i]).0 == v && built(
                                v,
                                front[i].1,
                            )->Ok_0 == had[v];
                        assert(entries[i].0 == v);
                    }
                }
                assert forall|i: int| 0 <= i < entries.len() implies m.contains_key(
                    (#[trigger] entries[i]).0,
                ) by {
                    if i < n {
                        assert(had.contains_key(front[i].0));
                    }
                }
            } else {
                assert(built(entries[n].0, entries[n].1) is Err);
            }
        }
    }
}

/// What is loaded is every version that is listed and no other, each as its rows
/// hold it; loading fails if and only if the rows of some version hold no
/// catalog.
pub proof fn law_loading_takes_every_version(entries: Vec<StoredVersion>)
    ensures
        loaded(views(entries@)) is Ok <==> forall|i: int|
            0 <= i < entries@.len() ==> built(
                (#[trigger] entries@[i]).version@,
                entries@[i].rows@,
            ) is Ok,
        loaded(views(entries@)) is Ok ==> {
            let m = loaded(views(entries@))->Ok_0;
            &&& forall|v: Seq<char>| #[trigger]
                m.contains_key(v) ==> exists|i: int|
                    0 <= i < entries@.len() && (#[trigger] entries@[i]).version@ == v && built(
                        v,
                        entries@[i].rows@,
                    )->Ok_0 == m[v]
            &&& forall|i: int|
                0 <= i < entries@.len() ==> m.contains_key((#[trigger] entries@[i]).version@)
        },
{
    let all = views(entries@);
    lemma_loaded_all(all);
    assert forall|i: int| 0 <= i < entries@.len() implies #[trigger] all[i] == (
        entries@[i].version@,
        entries@[i].rows@,
    ) by {}
    if loaded(all) is Ok {
        let m = loaded(all)->Ok_0;
        assert forall|i: int| 0 <= i < entries@.len() implies built(
            (#[trigger] entries@[i]).version@,
            entries@[i].rows@,
        ) is Ok && m.contains_key(entries@[i].version@) by {
            assert(built(all[i].0, all[i].1) is Ok);
            assert(m.contains_key(all[i].0));
        }
        assert forall|v: Seq<char>| #[trigger] m.contains_key(v) implies exists|i: int|
            0 <= i < entries@.len() && (#[trigger] entries@[i]).version@ == v && built(
                v,
                entries@[i].rows@,
            )->Ok_0 == m[v] by {
            let i = choose|i: int|
                0 <= i < all.len() && (#[trigger] all[i]).0 == v && built(v, all[i].1)->Ok_0
                    == m[v];
            assert(entries@[i].version@ == v);
        }
    } else {
        let i = choose|i: int|
            0 <= i < all.len() && built((#[trigger] all[i]).0, all[i].1) is Err;
        assert(built(entries@[i].version@, entries@[i].rows@) is Err);
    }
}

/// Building a version anew puts what its rows hold in its place; the active
/// version and all other versions stay. It fails if and only if the rows hold no
/// catalog.
pub proof fn law_rebuilding_changes_one_version(
    before: Store,
    after: Store,
    version: Seq<char>,
    rows: CatalogRows,
)
    requires
        rebuilt(before@, version, rows@) is Ok,
        after@ == rebuilt(before@, version, rows@)->Ok_0,
    ensures
        built(version, rows@) is Ok,
        after@.versions.contains_key(version),
        after@.versions[version] == built(version, rows@)->Ok_0,
        forall|v: Seq<char>|
            v != version ==> #[trigger] after@.versions.contains_key(v)
                == before@.versions.contains_key(v),
        forall|v: Seq<char>|
            v != version && #[trigger] before@.versions.contains_key(v) ==> after@.versions[v]
                == before@.versions[v],
        after@.active == before@.active,
{
}

/// Taking up an imported version puts what its rows hold in its place and makes
/// it active if and only if that is asked for; all other versions stay.
pub proof fn law_importing_changes_one_version(
    before: Store,
    after: Store,
    version: Seq<char>,
    rows: CatalogRows,
    activate: bool,
)
    requires
        imported(before@, version, rows@, activate) is Ok,
        after@ == imported(before@, version, rows@, activate)->Ok_0,
    ensures
        built(version, rows@) is Ok,
        after@.versions.contains_key(version),
        after@.versions[version] == built(version, rows@)->Ok_0,
        forall|v: Seq<char>|
            v != version ==> #[trigger] after@.versions.contains_key(v)
                == before@.versions.contains_key(v),
        forall|v: Seq<char>|
            v != version && #[trigger] before@.versions.contains_key(v) ==> after@.versions[v]
                == before@.versions[v],
        activate ==> after@.active is Some && after@.active->Some_0 == version,
        !activate ==> after@.active == before@.active,
{
}

/// An event that is ended ends at the later of the instant asked for and its
/// beginning.
pub proof fn law_events_end_no_earlier_than_they_begin(
    from: Timestamp,
    at: Timestamp,
    end: Timestamp,
)
    requires
        ends_at(from@, Some(at), end@),
    ensures
        end@ == clamped(from@, at@),
        from@.0 < at@.0 || (from@.0 == at@.0 && from@.1 <= at@.1) ==> end@ == at@,
        at@.0 < from@.0 || (at@.0 == from@.0 && at@.1 < from@.1) ==> end@ == from@,
{
}

} // verus!
