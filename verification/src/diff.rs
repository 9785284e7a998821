//! Comparison of two scans, path by path.
//!
//! | the path is                                  | operation |
//! |----------------------------------------------|-----------|
//! | in the reference set only                    | delete    |
//! | in both sets, with different chunk lists     | copy      |
//! | in both sets, with equal chunk lists         | none      |
//! | in the current set only                      | create    |
//!
//! A directory has no chunk list, so a path that was a directory and is
//! now a file, or the other way round, is a copy. The operations come in a
//! fixed order: first the deletions and copies, in the order of the
//! records of the reference set, then the creations, in the order of the
//! records of the current set. Where a set holds a path more than once,
//! the last record with that path speaks for it, and an operation on the
//! path takes the place of that record.

use crate::fingerprint::{same_chunks, Fingerprint, FingerprintView};
use vstd::hash_map::StringHashMap;
use vstd::prelude::*;

verus! {

/// What is to be done with a path of the mirror.
#[derive(Clone, Copy, Debug, PartialEq, Eq, Hash, Structural)]
pub enum OpKind {
    /// The path is new: make it.
    Create,
    /// The path is gone: remove it.
    Delete,
    /// The content at the path has changed: copy it again.
    Copy,
}

/// The name of an operation, as it is written out.
pub open spec fn op_name(op: OpKind) -> Seq<char> {
    match op {
        OpKind::Create => "create"@,
        OpKind::Delete => "delete"@,
        OpKind::Copy => "copy"@,
    }
}

impl OpKind {
    /// The name of the operation: `create`, `delete` or `copy`.
    pub fn name(&self) -> (name: &'static str)
        ensures
            name@ == op_name(*self),
    {
        match self {
            OpKind::Create => "create",
            OpKind::Delete => "delete",
            OpKind::Copy => "copy",
        }
    }
}

/// One step that brings a mirror of the reference set up to the current
/// set.
#[derive(Clone, Debug, PartialEq, Eq)]
pub struct DiffOperation {
    pub op: OpKind,
    pub path: String,
}

/// The mathematical content of a `DiffOperation`.
pub struct DiffOperationView {
    pub op: OpKind,
    pub path: Seq<char>,
}

impl View for DiffOperation {
    type V = DiffOperationView;

    open spec fn view(&self) -> DiffOperationView {
        DiffOperationView { op: self.op, path: self.path@ }
    }
}

impl DeepView for DiffOperation {
    type V = DiffOperationView;

    open spec fn deep_view(&self) -> DiffOperationView {
        self@
    }
}

/// For each path of `set`, the index of the record that speaks for it:
/// the last one with that path.
pub open spec fn path_index(set: Seq<FingerprintView>) -> Map<Seq<char>, int>
    decreases set.len(),
{
    if set.len() == 0 {
        Map::empty()
    } else {
        path_index(set.drop_last()).insert(set.last().relative_path, set.len() - 1)
    }
}

/// Whether `set` has a record of `path`.
pub open spec fn has_path(set: Seq<FingerprintView>, path: Seq<char>) -> bool {
    path_index(set).contains_key(path)
}

/// The chunk list that `set` records for a path that it has.
pub open spec fn chunks_at(set: Seq<FingerprintView>, path: Seq<char>) -> Option<Seq<Seq<char>>> {
    set[path_index(set)[path]].chunks
}

/// What is to be done with `path`, if anything.
pub open spec fn change_of(
    reference: Seq<FingerprintView>,
    current: Seq<FingerprintView>,
    path: Seq<char>,
) -> Option<OpKind> {
    if has_path(reference, path) {
        if !has_path(current, path) {
            Some(OpKind::Delete)
        } else if chunks_at(reference, path) != chunks_at(current, path) {
            Some(OpKind::Copy)
        } else {
            None
        }
    } else if has_path(current, path) {
        Some(OpKind::Create)
    } else {
        None
    }
}

/// The operation that stands at the place of record `i` of the reference
/// set: the deletion or the copy of its path, if the record speaks for its
/// path and the path has changed.
pub open spec fn reference_op(
    reference: Seq<FingerprintView>,
    current: Seq<FingerprintView>,
    i: int,
) -> Option<DiffOperationView> {
    let path = reference[i].relative_path;
    if path_index(reference)[path] != i {
        None
    } else {
        match change_of(reference, current, path) {
            Some(op) => Some(DiffOperationView { op, path }),
            None => None,
        }
    }
}

/// The operation that stands at the place of record `j` of the current
/// set: the creation of its path, if the record speaks for its path and
/// the reference set does not have the path.
pub open spec fn current_op(
    reference: Seq<FingerprintView>,
    current: Seq<FingerprintView>,
    j: int,
) -> Option<DiffOperationView> {
    let path = current[j].relative_path;
    if path_index(current)[path] == j && !has_path(reference, path) {
        Some(DiffOperationView { op: OpKind::Create, path })
    } else {
        None
    }
}

/// The deletions and copies that the first `upto` records of the
/// reference set give rise to, in the order of the records.
pub open spec fn deletions_and_copies(
    reference: Seq<FingerprintView>,
    current: Seq<FingerprintView>,
    upto: int,
) -> Seq<DiffOperationView>
    decreases upto,
{
    if upto <= 0 {
        Seq::empty()
    } else {
        let earlier = deletions_and_copies(reference, current, upto - 1);
        match reference_op(reference, current, upto - 1) {
            Some(operation) => earlier.push(operation),
            None => earlier,
        }
    }
}

/// The creations that the first `upto` records of the current set give
/// rise to, in the order of the records.
pub open spec fn creations(
    reference: Seq<FingerprintView>,
    current: Seq<FingerprintView>,
    upto: int,
) -> Seq<DiffOperationView>
    decreases upto,
{
    if upto <= 0 {
        Seq::empty()
    } else {
        let earlier = creations(reference, current, upto - 1);
        match current_op(reference, current, upto - 1) {
            Some(operation) => earlier.push(operation),
            None => earlier,
        }
    }
}

/// The operations that bring a mirror of `reference` up to `current`.
pub open spec fn diff(reference: Seq<FingerprintView>, current: Seq<FingerprintView>) -> Seq<
    DiffOperationView,
> {
    deletions_and_copies(reference, current, reference.len() as int) + creations(
        reference,
        current,
        current.len() as int,
    )
}

/// How many of `operations` are on `path`.
pub open spec fn operations_on(operations: Seq<DiffOperationView>, path: Seq<char>) -> nat
    decreases operations.len(),
{
    if operations.len() == 0 {
        0
    } else {
        let earlier = operations_on(operations.drop_last(), path);
        if operations.last().path == path {
            earlier + 1
        } else {
            earlier
        }
    }
}

/// A set has a path exactly when one of its records has it, and the record
/// that speaks for the path is the last one with it.
pub proof fn lemma_path_index(set: Seq<FingerprintView>, path: Seq<char>)
    ensures
        has_path(set, path) <==> exists|i: int|
            0 <= i < set.len() && (#[trigger] set[i]).relative_path == path,
        has_path(set, path) ==> {
            let k = path_index(set)[path];
            &&& 0 <= k < set.len()
            &&& set[k].relative_path == path
            &&& forall|j: int| k < j < set.len() ==> (#[trigger] set[j]).relative_path != path
        },
    decreases set.len(),
{
    if set.len() > 0 {
        let init = set.drop_last();
        let last = set.len() - 1;
        lemma_path_index(init, path);
        if set[last].relative_path == path {
            assert(has_path(set, path));
        } else if has_path(init, path) {
            let k = path_index(init)[path];
            assert(init[k] == set[k]);
            assert forall|j: int| k < j < set.len() implies (#[trigger] set[j]).relative_path
                != path by {
                if j < last {
                    assert(init[j] == set[j]);
                }
            }
        } else {
            assert forall|i: int| 0 <= i < set.len() implies (#[trigger] set[i]).relative_path
                != path by {
                if i < last {
                    assert(init[i] == set[i]);
                }
            }
        }
    }
}

/// Every record's path is a path of the set.
pub proof fn lemma_record_has_path(set: Seq<FingerprintView>, i: int)
    requires
        0 <= i < set.len(),
    ensures
        has_path(set, set[i].relative_path),
{
    lemma_path_index(set, set[i].relative_path);
}

/// Whether no two records of `set` have the same path, as it is in the
/// result of a scan.
pub open spec fn has_unique_paths(set: Seq<FingerprintView>) -> bool {
    forall|i: int, j: int|
        0 <= i < j < set.len() ==> (#[trigger] set[i]).relative_path != (
        #[trigger] set[j]).relative_path
}

/// In a set without repeated paths every record speaks for its path, so
/// that the order of the records has no part in what is found.
pub proof fn lemma_unique_paths_all_speak(set: Seq<FingerprintView>, i: int)
    requires
        has_unique_paths(set),
        0 <= i < set.len(),
    ensures
        has_path(set, set[i].relative_path),
        path_index(set)[set[i].relative_path] == i,
{
    lemma_path_index(set, set[i].relative_path);
    let k = path_index(set)[set[i].relative_path];
    if k < i {
        assert(set[k].relative_path != set[i].relative_path);
    } else if k > i {
        assert(set[i].relative_path != set[k].relative_path);
    }
}

proof fn lemma_operations_on_push(
    operations: Seq<DiffOperationView>,
    operation: DiffOperationView,
    path: Seq<char>,
)
    ensures
        operations_on(operations.push(operation), path) == operations_on(operations, path) + (if operation.path
            == path {
            1nat
        } else {
            0nat
        }),
{
    assert(operations.push(operation).drop_last() =~= operations);
}

proof fn lemma_operations_on_add(
    left: Seq<DiffOperationView>,
    right: Seq<DiffOperationView>,
    path: Seq<char>,
)
    ensures
        operations_on(left + right, path) == operations_on(left, path) + operations_on(right, path),
    decreases right.len(),
{
    if right.len() == 0 {
        assert(left + right =~= left);
    } else {
        lemma_operations_on_add(left, right.drop_last(), path);
        assert((left + right).drop_last() =~= left + right.drop_last());
    }
}

/// In the deletions and copies of the first `upto` records, a path has one
/// operation if the record that speaks for it is among them and the path
/// is deleted or changed, and none otherwise; and each operation is what
/// is to be done with its path.
proof fn lemma_deletions_and_copies(
    reference: Seq<FingerprintView>,
    current: Seq<FingerprintView>,
    upto: int,
    path: Seq<char>,
)
    requires
        0 <= upto <= reference.len(),
    ensures
        operations_on(deletions_and_copies(reference, current, upto), path) == (if has_path(
            reference,
            path,
        ) && path_index(reference)[path] < upto && change_of(reference, current, path) is Some {
            1nat
        } else {
            0nat
        }),
        forall|k: int|
            0 <= k < deletions_and_copies(reference, current, upto).len() ==> {
                let operation = #[trigger] deletions_and_copies(reference, current, upto)[k];
                &&& has_path(reference, operation.path)
                &&& change_of(reference, current, operation.path) == Some(operation.op)
            },
    decreases upto,
{
    lemma_path_index(reference, path);
    if upto > 0 {
        let i = upto - 1;
        let earlier = deletions_and_copies(reference, current, i);
        lemma_deletions_and_copies(reference, current, i, path);
        lemma_record_has_path(reference, i);
        match reference_op(reference, current, i) {
            Some(operation) => {
                lemma_operations_on_push(earlier, operation, path);
                let all = earlier.push(operation);
                assert forall|k: int| 0 <= k < all.len() implies {
                    let o = #[trigger] all[k];
                    &&& has_path(reference, o.path)
                    &&& change_of(reference, current, o.path) == Some(o.op)
                } by {
                    if k < earlier.len() {
                        assert(all[k] == earlier[k]);
                    }
                }
            },
            None => {},
        }
    }
}

/// In the creations of the first `upto` records, a path has one operation
/// if the record that speaks for it is among them and the reference set
/// does not have the path, and none otherwise; and each operation is what
/// is to be done with its path.
proof fn lemma_creations(
    reference: Seq<FingerprintView>,
    current: Seq<FingerprintView>,
    upto: int,
    path: Seq<char>,
)
    requires
        0 <= upto <= current.len(),
    ensures
        operations_on(creations(reference, current, upto), path) == (if has_path(current, path)
            && path_index(current)[path] < upto && !has_path(reference, path) {
            1nat
        } else {
            0nat
        }),
        forall|k: int|
            0 <= k < creations(reference, current, upto).len() ==> {
                let operation = #[trigger] creations(reference, current, upto)[k];
                &&& !has_path(reference, operation.path)
                &&& change_of(reference, current, operation.path) == Some(operation.op)
            },
    decreases upto,
{
    lemma_path_index(current, path);
    if upto > 0 {
        let j = upto - 1;
        let earlier = creations(reference, current, j);
        lemma_creations(reference, current, j, path);
        lemma_record_has_path(current, j);
        match current_op(reference, current, j) {
            Some(operation) => {
                lemma_operations_on_push(earlier, operation, path);
                let all = earlier.push(operation);
                assert forall|k: int| 0 <= k < all.len() implies {
                    let o = #[trigger] all[k];
                    &&& !has_path(reference, o.path)
                    &&& change_of(reference, current, o.path) == Some(o.op)
                } by {
                    if k < earlier.len() {
                        assert(all[k] == earlier[k]);
                    }
                }
            },
            None => {},
        }
    }
}

/// Every path falls under exactly one line of the table, and the
/// operations say so: a path that is deleted, copied or created has
/// exactly one operation, which is that one, and any other path, whether
/// unchanged or in neither set, has none.
pub proof fn lemma_diff_is_complete(
    reference: Seq<FingerprintView>,
    current: Seq<FingerprintView>,
    path: Seq<char>,
)
    ensures
        operations_on(diff(reference, current), path) == (if change_of(reference, current, path)
            is Some {
            1nat
        } else {
            0nat
        }),
        forall|k: int|
            0 <= k < diff(reference, current).len() && (#[trigger] diff(
                reference,
                current,
            )[k]).path == path ==> change_of(reference, current, path) == Some(
                diff(reference, current)[k].op,
            ),
{
    let first = deletions_and_copies(reference, current, reference.len() as int);
    let second = creations(reference, current, current.len() as int);
    lemma_deletions_and_copies(reference, current, reference.len() as int, path);
    lemma_creations(reference, current, current.len() as int, path);
    lemma_operations_on_add(first, second, path);
    lemma_path_index(reference, path);
    lemma_path_index(current, path);
    assert forall|k: int|
        0 <= k < diff(reference, current).len() && (#[trigger] diff(reference, current)[k]).path
            == path implies change_of(reference, current, path) == Some(
        diff(reference, current)[k].op,
    ) by {
        if k < first.len() {
            assert(diff(reference, current)[k] == first[k]);
        } else {
            assert(diff(reference, current)[k] == second[k - first.len()]);
        }
    }
}

/// A set compared with itself gives no deletion or copy.
proof fn lemma_no_change_within(set: Seq<FingerprintView>, upto: int)
    requires
        0 <= upto <= set.len(),
    ensures
        deletions_and_copies(set, set, upto) == Seq::<DiffOperationView>::empty(),
        creations(set, set, upto) == Seq::<DiffOperationView>::empty(),
    decreases upto,
{
    if upto > 0 {
        lemma_no_change_within(set, upto - 1);
        lemma_record_has_path(set, upto - 1);
    }
}

/// A set compared with itself gives no operation.
pub proof fn lemma_diff_of_same_is_empty(set: Seq<FingerprintView>)
    ensures
        diff(set, set) == Seq::<DiffOperationView>::empty(),
{
    lemma_no_change_within(set, set.len() as int);
    assert(diff(set, set) =~= Seq::<DiffOperationView>::empty());
}

/// Whether `index` holds, for each path of `set`, the place of the record
/// that speaks for it.
pub open spec fn indexes(index: Map<Seq<char>, usize>, set: Seq<FingerprintView>) -> bool {
    &&& forall|path: Seq<char>| #[trigger] index.contains_key(path) <==> has_path(set, path)
    &&& forall|path: Seq<char>| #[trigger]
        index.contains_key(path) ==> index[path] as int == path_index(set)[path]
}

/// Builds the table from path to the place of the record that speaks for
/// it.
fn index_paths(set: &Vec<Fingerprint>) -> (index: StringHashMap<usize>)
    ensures
        indexes(index@, set.deep_view()),
{
    let mut index: StringHashMap<usize> = StringHashMap::new();
    let mut i: usize = 0;
    while i < set.len()
        invariant
            i <= set@.len(),
            indexes(index@, set.deep_view().take(i as int)),
        decreases set@.len() - i,
    {
        let ghost before = set.deep_view().take(i as int);
        let ghost after = set.deep_view().take(i + 1);
        proof {
            assert(after.drop_last() =~= before);
            assert(after.last() == set@[i as int]@);
        }
        index.insert(set[i].relative_path.clone(), i);
        i += 1;
    }
    proof {
        assert(set.deep_view().take(set@.len() as int) =~= set.deep_view());
    }
    index
}

/// Compares two scans and lists what has to be done to a mirror of the
/// reference set to make it match the current set.
///
/// Neither set is changed, and neither needs to be in any order. The
/// result is a function of the two sets: the same sets give the same
/// operations in the same order.
pub fn diff_states(reference: &Vec<Fingerprint>, current: &Vec<Fingerprint>) -> (operations: Vec<
    DiffOperation,
>)
    ensures
        operations.deep_view() == diff(reference.deep_view(), current.deep_view()),
{
    let reference_index: StringHashMap<usize> = index_paths(reference);
    let current_index: StringHashMap<usize> = index_paths(current);
    let ghost old_set = reference.deep_view();
    let ghost new_set = current.deep_view();
    let mut operations: Vec<DiffOperation> = Vec::new();
    let mut i: usize = 0;
    while i < reference.len()
        invariant
            i <= reference@.len(),
            old_set == reference.deep_view(),
            new_set == current.deep_view(),
            indexes(reference_index@, old_set),
            indexes(current_index@, new_set),
            operations.deep_view() == deletions_and_copies(old_set, new_set, i as int),
        decreases reference@.len() - i,
    {
        let record: &Fingerprint = &reference[i];
        let path: &str = record.relative_path.as_str();
        let ghost before = operations.deep_view();
        proof {
            assert(old_set[i as int] == record@);
            lemma_record_has_path(old_set, i as int);
            lemma_path_index(new_set, path@);
        }
        let speaks: bool = match reference_index.get(path) {
            Some(k) => *k == i,
            None => false,
        };
        if speaks {
            match current_index.get(path) {
                None => {
                    let operation = DiffOperation {
                        op: OpKind::Delete,
                        path: record.relative_path.clone(),
                    };
                    operations.push(operation);
                    proof {
                        assert(operations.deep_view() =~= before.push(operation@));
                    }
                },
                Some(j) => {
                    let other: &Fingerprint = &current[*j];
                    assert(new_set[*j as int] == other@);
                    if !same_chunks(&record.chunks, &other.chunks) {
                        let operation = DiffOperation {
                            op: OpKind::Copy,
                            path: record.relative_path.clone(),
                        };
                        operations.push(operation);
                        proof {
                            assert(operations.deep_view() =~= before.push(operation@));
                        }
                    }
                },
            }
        }
        i += 1;
    }
    let ghost first = operations.deep_view();
    let mut j: usize = 0;
    while j < current.len()
        invariant
            j <= current@.len(),
            old_set == reference.deep_view(),
            new_set == current.deep_view(),
            indexes(reference_index@, old_set),
            indexes(current_index@, new_set),
            first == deletions_and_copies(old_set, new_set, old_set.len() as int),
            operations.deep_view() == first + creations(old_set, new_set, j as int),
        decreases current@.len() - j,
    {
        let record: &Fingerprint = &current[j];
        let path: &str = record.relative_path.as_str();
        let ghost before = operations.deep_view();
        proof {
            assert(new_set[j as int] == record@);
            lemma_record_has_path(new_set, j as int);
        }
        let speaks: bool = match current_index.get(path) {
            Some(k) => *k == j,
            None => false,
        };
        if speaks && !reference_index.contains_key(path) {
            let operation = DiffOperation { op: OpKind::Create, path: record.relative_path.clone() };
            operations.push(operation);
            proof {
                assert(operations.deep_view() =~= before.push(operation@));
                assert(first + creations(old_set, new_set, j as int).push(operation@) =~= (first
                    + creations(old_set, new_set, j as int)).push(operation@));
            }
        }
        j += 1;
    }
    operations
}

} // verus!
