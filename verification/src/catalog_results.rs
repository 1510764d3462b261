//! Which catalogs are accepted, told from the catalog alone, and how errors are
//! answered.

use crate::catalog::{
    catalog_fault, closure_fault, first_closure_fault, first_repeat, point_ids, Catalog,
};
use crate::error::AppError;
use crate::text::{is_blank, is_white_space};
use vstd::prelude::*;

verus! {

/// The version of a catalog holds a character that is not white space.
pub open spec fn is_named(c: Catalog) -> bool {
    exists|i: int|
        0 <= i < c.catalog_version@.len() && !is_white_space(#[trigger] c.catalog_version@[i])
}

/// The point with the number `i` has the id of an earlier one.
pub open spec fn repeats(c: Catalog, i: int) -> bool {
    &&& 0 <= i < c.points@.len()
    &&& exists|j: int| 0 <= j < i && (#[trigger] c.points@[j]).id@ == c.points@[i].id@
}

/// The closure with the number `i` does not end after it begins.
pub open spec fn never_lasts(c: Catalog, i: int) -> bool {
    let x = c.closures@[i];
    &&& 0 <= i < c.closures@.len()
    &&& x.to@.0 < x.from@.0 || (x.to@.0 == x.from@.0 && x.to@.1 <= x.from@.1)
}

/// The closure with the number `i` is of a point that the catalog does not have.
pub open spec fn is_stray(c: Catalog, i: int) -> bool {
    &&& 0 <= i < c.closures@.len()
    &&& forall|j: int|
        0 <= j < c.points@.len() ==> (#[trigger] c.points@[j]).id@ != c.closures@[i].point_id@
}

/// Something is wrong with the closure with the number `i`.
pub open spec fn is_faulty(c: Catalog, i: int) -> bool {
    never_lasts(c, i) || is_stray(c, i)
}

proof fn lemma_repeat_place(c: Catalog, from: int)
    requires
        0 <= from <= c.points@.len(),
    ensures
        match first_repeat(point_ids(c@.points), from) {
            Some(i) => from <= i && repeats(c, i) && forall|j: int|
                from <= j < i ==> !#[trigger] repeats(c, j),
            None => forall|j: int| from <= j ==> !#[trigger] repeats(c, j),
        },
    decreases c.points@.len() - from,
{
    let ids = point_ids(c@.points);
    if from < c.points@.len() {
        let front = ids.take(from);
        assert(ids[from] == c.points@[from].id@);
        if front.contains(ids[from]) {
            let j = choose|j: int| 0 <= j < front.len() && front[j] == ids[from];
            assert(c@.points[j] == c.points@[j]@);
            assert(repeats(c, from));
        } else {
            lemma_repeat_place(c, from + 1);
            if repeats(c, from) {
                let j = choose|j: int|
                    0 <= j < from && (#[trigger] c.points@[j]).id@ == c.points@[from].id@;
                assert(c@.points[j] == c.points@[j]@);
                assert(front[j] == ids[from]);
            }
        }
    }
}

proof fn lemma_fault(c: Catalog, i: int)
    requires
        0 <= i < c.closures@.len(),
    ensures
        closure_fault(point_ids(c@.points), c@.closures[i]) is Some <==> is_faulty(c, i),
        never_lasts(c, i) ==> closure_fault(point_ids(c@.points), c@.closures[i]) == Some(
            "closure "@ + c.closures@[i].event_id@ + " has to <= from"@,
        ),
        !never_lasts(c, i) && is_stray(c, i) ==> closure_fault(
            point_ids(c@.points),
            c@.closures[i],
        ) == Some(
            "closure "@ + c.closures@[i].event_id@ + " references unknown point "@
                + c.closures@[i].point_id@,
        ),
{
    let ids = point_ids(c@.points);
    let x = c.closures@[i];
    assert(c@.closures[i] == x@);
    if ids.contains(x.point_id@) {
        let j = choose|j: int| 0 <= j < ids.len() && ids[j] == x.point_id@;
        assert(c@.points[j] == c.points@[j]@);
        assert(c.points@[j].id@ == x.point_id@);
    } else {
        assert forall|j: int| 0 <= j < c.points@.len() implies (#[trigger] c.points@[j]).id@
            != x.point_id@ by {
            assert(c@.points[j] == c.points@[j]@);
            assert(ids[j] == c.points@[j].id@);
        }
    }
}

proof fn lemma_fault_place(c: Catalog, from: int) -> (i: int)
    requires
        0 <= from <= c.closures@.len(),
    ensures
        from <= i <= c.closures@.len(),
        forall|j: int| from <= j < i ==> !#[trigger] is_faulty(c, j),
        i < c.closures@.len() ==> is_faulty(c, i),
        first_closure_fault(point_ids(c@.points), c@.closures, from) == if i < c.closures@.len() {
            closure_fault(point_ids(c@.points), c@.closures[i])
        } else {
            None
        },
    decreases c.closures@.len() - from,
{
    if from == c.closures@.len() {
        from
    } else {
        lemma_fault(c, from);
        if is_faulty(c, from) {
            from
        } else {
            lemma_fault_place(c, from + 1)
        }
    }
}

/// A catalog is accepted if and only if its version is more than white space,
/// it has a point, no two points share an id, and every closure ends after it
/// begins and is of a point of the catalog. What is wrong is told, the first
/// thing of several: the version, the points, the first id that is there
/// already, the first faulty closure.
pub proof fn law_faults_are_named(c: Catalog)
    ensures
        catalog_fault(c@) is None <==> {
            &&& is_named(c)
            &&& c.points@.len() > 0
            &&& forall|i: int| !#[trigger] repeats(c, i)
            &&& forall|i: int| !#[trigger] is_faulty(c, i)
        },
        !is_named(c) ==> catalog_fault(c@) == Some("catalogVersion must not be empty"@),
        is_named(c) && c.points@.len() == 0 ==> catalog_fault(c@) == Some(
            "catalog must contain at least one point"@,
        ),
        forall|i: int|
            {
                &&& is_named(c)
                &&& #[trigger] repeats(c, i)
                &&& forall|j: int| 0 <= j < i ==> !repeats(c, j)
            } ==> catalog_fault(c@) == Some("duplicate point id: "@ + c.points@[i].id@),
        forall|i: int|
            {
                &&& is_named(c)
                &&& c.points@.len() > 0
                &&& forall|j: int| !repeats(c, j)
                &&& #[trigger] is_faulty(c, i)
                &&& forall|j: int| 0 <= j < i ==> !is_faulty(c, j)
            } ==> catalog_fault(c@) == Some(
                if never_lasts(c, i) {
                    "closure "@ + c.closures@[i].event_id@ + " has to <= from"@
                } else {
                    "closure "@ + c.closures@[i].event_id@ + " references unknown point "@
                        + c.closures@[i].point_id@
                },
            ),
{
    let ids = point_ids(c@.points);
    assert(is_blank(c@.catalog_version) == !is_named(c));
    assert(c@.points.len() == c.points@.len());
    lemma_repeat_place(c, 0);
    let k = lemma_fault_place(c, 0);
    assert forall|i: int| 0 <= i < c.points@.len() implies #[trigger] ids[i] == c.points@[i].id@ by {
        assert(c@.points[i] == c.points@[i]@);
    }
    if k < c.closures@.len() {
        lemma_fault(c, k);
    }
    assert forall|i: int| is_faulty(c, i) implies 0 <= i < c.closures@.len() by {}
    assert forall|i: int|
        {
            &&& is_named(c)
            &&& #[trigger] repeats(c, i)
            &&& forall|j: int| 0 <= j < i ==> !repeats(c, j)
        } implies catalog_fault(c@) == Some("duplicate point id: "@ + c.points@[i].id@) by {
        let f = first_repeat(ids, 0)->Some_0;
        assert(repeats(c, f));
        assert(f == i);
    }
    assert forall|i: int|
        {
            &&& is_named(c)
            &&& c.points@.len() > 0
            &&& forall|j: int| !repeats(c, j)
            &&& #[trigger] is_faulty(c, i)
            &&& forall|j: int| 0 <= j < i ==> !is_faulty(c, j)
        } implies catalog_fault(c@) == Some(
        if never_lasts(c, i) {
            "closure "@ + c.closures@[i].event_id@ + " has to <= from"@
        } else {
            "closure "@ + c.closures@[i].event_id@ + " references unknown point "@
                + c.closures@[i].point_id@
        },
    ) by {
        if i < k {
            assert(!is_faulty(c, i));
        } else if k < i {
            assert(!is_faulty(c, k));
        }
    }
}

/// Faults of the request are answered with a client error that says so, what is
/// not there and what is there already each with its own, and everything else
/// with a server error; no error is answered as a success.
pub proof fn law_errors_are_answered(e: AppError)
    ensures
        e.status_code() == 400 <==> e is Serde || e is TimeParse || e is BadRequest,
        e.status_code() == 404 <==> e is NotFound,
        e.status_code() == 409 <==> e is Conflict,
        e.status_code() == 500 <==> e is Db || e is Pool || e is Internal,
        e.status_code() >= 400,
{
}

/// What a request was refused for is answered word for word; failures from
/// elsewhere are introduced by where they come from.
pub proof fn law_messages_are_passed_on(m: String)
    ensures
        AppError::BadRequest(m).answer() == m@,
        AppError::NotFound(m).answer() == m@,
        AppError::Conflict(m).answer() == m@,
        AppError::Internal(m).answer() == m@,
        AppError::Db(m).answer() == "database error: "@ + m@,
        AppError::Pool(m).answer() == "connection pool error: "@ + m@,
        AppError::Serde(m).answer() == "invalid json: "@ + m@,
        AppError::TimeParse(m).answer() == "invalid time format: "@ + "time parse error: "@ + m@,
{
    assert("invalid time format: "@ + ("time parse error: "@ + m@) =~= "invalid time format: "@
        + "time parse error: "@ + m@);
}

} // verus!
