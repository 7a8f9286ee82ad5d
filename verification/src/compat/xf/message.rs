//! Chat messages read from the database.
use vstd::prelude::*;

verus! {

/// The rows of a room's history, oldest first.
///
/// The history query reads the newest rows first (newest message id first, limited to
/// the number asked for); a failed query yields an empty history.
pub open spec fn history_rows<T, E>(newest_first: Result<Vec<T>, E>) -> Seq<T> {
    match newest_first {
        Ok(v) => v@.reverse(),
        Err(_) => Seq::empty(),
    }
}

/// The history of a room, oldest first, is the query's rows reversed, whatever their
/// number; a failed query gives no rows.
pub proof fn law_history_reversed<T, E>(newest_first: Result<Vec<T>, E>)
    ensures
        newest_first matches Ok(v) ==> history_rows(newest_first).len() == v@.len() && forall|
            i: int,
        |
            0 <= i < v@.len() ==> #[trigger] history_rows(newest_first)[i] == v@[v@.len() - 1
                - i],
        newest_first is Err ==> history_rows(newest_first).len() == 0,
{
}

/// Puts the rows of a room's history query in chronological order.
pub fn history_oldest_first<T, E>(newest_first: Result<Vec<T>, E>) -> (rows: Vec<T>)
    ensures
        rows@ == history_rows(newest_first),
        newest_first matches Ok(v) ==> rows@.len() == v@.len() && forall|i: int|
            0 <= i < v@.len() ==> #[trigger] rows@[i] == v@[v@.len() - 1 - i],
        newest_first is Err ==> rows@.len() == 0,
{
    let mut newest: Vec<T> = match newest_first {
        Ok(v) => v,
        Err(_) => Vec::new(),
    };
    let ghost all = newest@;
    let mut rows: Vec<T> = Vec::new();
    while newest.len() > 0
        invariant
            newest@ == all.take(newest@.len() as int),
            newest@.len() <= all.len(),
            rows@.len() + newest@.len() == all.len(),
            forall|i: int| 0 <= i < rows@.len() ==> #[trigger] rows@[i] == all[all.len() - 1 - i],
        decreases newest@.len(),
    {
        let r = newest.pop().unwrap();
        rows.push(r);
        assert(newest@ =~= all.take(newest@.len() as int));
    }
    assert(rows@ =~= all.reverse());
    assert(forall|i: int| 0 <= i < all.len() ==> #[trigger] rows@[i] == all[all.len() - 1 - i]);
    rows
}

} // verus!
