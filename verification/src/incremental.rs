//! Freshly compiled object files, and the order they are looked at in.

use itertools::Itertools;
use std::path::PathBuf;
use vstd::prelude::*;
use vstd::std_specs::cmp::OrdSpec;

verus! {

/// A path in the file system.
#[verifier::external_type_specification]
#[verifier::external_body]
pub struct ExPathBuf(std::path::PathBuf);

/// A freshly compiled object file.
pub struct Incremental {
    pub path: PathBuf,
    /// What the file holds; `None` where it could not be read.
    pub bytes: Option<Vec<u8>>,
}

/// Whether `order` names each of the places `0..n` once.
pub open spec fn is_permutation(order: Seq<usize>, n: nat) -> bool {
    &&& order.len() == n
    &&& order.no_duplicates()
    &&& forall|k: int| 0 <= k < order.len() ==> (#[trigger] order[k]) < n
}

/// Whether the first path does not come behind the second. What their order is depends on
/// the system that the paths are for.
pub open spec fn not_behind(first: PathBuf, second: PathBuf) -> bool {
    first.cmp_spec(&second) != core::cmp::Ordering::Greater
}

/// Whether neither path comes behind the other.
pub open spec fn same_path(first: PathBuf, second: PathBuf) -> bool {
    first.cmp_spec(&second) == core::cmp::Ordering::Equal
}

/// Whether the order of paths is a total one.
#[verifier::opaque]
pub open spec fn paths_ordered() -> bool {
    &&& PathBuf::obeys_cmp_spec()
    &&& forall|a: PathBuf, b: PathBuf|
        #![trigger same_path(a, b)]
        same_path(a, b) <==> not_behind(a, b) && not_behind(b, a)
    &&& forall|a: PathBuf, b: PathBuf| #[trigger] not_behind(a, b) || not_behind(b, a)
    &&& forall|a: PathBuf, b: PathBuf, c: PathBuf| #[trigger]
        not_behind(a, b) && #[trigger] not_behind(b, c) ==> not_behind(a, c)
}

/// What a total order says of three paths.
pub proof fn lemma_paths(a: PathBuf, b: PathBuf, c: PathBuf)
    requires
        paths_ordered(),
    ensures
        same_path(a, b) <==> not_behind(a, b) && not_behind(b, a),
        not_behind(a, b) || not_behind(b, a),
        not_behind(a, b) && not_behind(b, c) ==> not_behind(a, c),
{
    reveal(paths_ordered);
}

/// Whether the files come in ascending order of their paths, which is a total order.
pub open spec fn ascending(files: Seq<Incremental>, order: Seq<usize>) -> bool {
    &&& paths_ordered()
    &&& forall|j: int, k: int|
        0 <= j < k < order.len() ==> #[trigger] not_behind(
            files[order[j] as int].path,
            files[order[k] as int].path,
        )
}

/// Calls `itertools::Itertools::sorted` on the paths of the files, each paired with its
/// place in the list. Claims that the places come out once each and in ascending order of the
/// paths, and that this is a total order, as `std` promises of the `Ord` that paths have.
/// Which of two paths is the smaller one is left to `std`, which compares them by their
/// components and so by the rules of the system it was built for.
#[verifier::external_body]
pub(crate) fn sorted_order(files: &Vec<Incremental>) -> (order: Vec<usize>)
    ensures
        is_permutation(order@, files@.len()),
        ascending(files@, order@),
{
    files.iter().map(|file| &file.path).zip(0..).sorted().map(|(_, place)| place).collect()
}

/// A permutation leaves out no place.
pub proof fn lemma_permutation_is_complete(order: Seq<usize>, n: nat, i: usize)
    requires
        is_permutation(order, n),
        i < n,
    ensures
        order.contains(i),
{
    let places = order.map_values(|place: usize| place as int);
    let all = vstd::set_lib::set_int_range(0, n as int);
    vstd::set_lib::lemma_int_range(0, n as int);
    places.unique_seq_to_set();
    assert(places.to_set().subset_of(all));
    vstd::set_lib::lemma_subset_equality(places.to_set(), all);
    assert(places.to_set().contains(i as int));
    assert(order[places.index_of(i as int)] == i);
}

/// A permutation of places has each of them at exactly one place, and no others.
pub proof fn law_permutation_has_each_place_once(order: Seq<usize>, n: nat, i: usize)
    requires
        is_permutation(order, n),
    ensures
        order.len() == n,
        order.contains(i) <==> i < n,
        forall|j: int, k: int|
            0 <= j < k < order.len() ==> #[trigger] order[j] != #[trigger] order[k],
{
    if i < n {
        lemma_permutation_is_complete(order, n, i);
    }
}

/// Of files that come in ascending order, none comes before one whose path is smaller.
pub proof fn law_ascending_files(
    files: Seq<Incremental>,
    order: Seq<usize>,
    j: int,
    k: int,
)
    requires
        ascending(files, order),
        0 <= j < k < order.len(),
    ensures
        not_behind(files[order[j] as int].path, files[order[k] as int].path),
{
}

} // verus!
