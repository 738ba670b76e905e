//! The sharded map that gathers each directory's children during a walk, and
//! the small-vector lists it holds. Both come from outside crates; what this
//! module states about them is taken on trust from their sources.

use dashmap::DashMap;
use smallvec::SmallVec;
use vstd::prelude::*;

verus! {

/// A growable list of names that keeps short lists inline (`smallvec::SmallVec`).
/// Its contents are described by [`list_names`].
#[verifier::external_body]
pub struct NameList {
    inner: SmallVec<[String; 32]>,
}

/// `dashmap::DashMap`, a hash map split into shards; what the one used here
/// holds is [`groups`].
#[verifier::external_type_specification]
#[verifier::external_body]
#[verifier::reject_recursive_types(K)]
#[verifier::reject_recursive_types(V)]
#[verifier::reject_recursive_types(S)]
pub struct ExDashMap<K, V, S>(DashMap<K, V, S>);

/// The file names and the subdirectory names gathered for one directory.
pub type Lists = (NameList, NameList);

/// The map from a directory's path to its two lists of names.
pub type Groups = DashMap<String, Lists>;

/// One directory taken out of the map: its path and its lists.
pub type Group = (String, Lists);

/// The mathematical picture of one directory's lists: file names, then
/// subdirectory names.
pub type ListsModel = (Seq<Seq<char>>, Seq<Seq<char>>);

/// The mathematical picture of the map.
pub type GroupModel = Map<Seq<char>, ListsModel>;

/// The names that a list holds, oldest first.
pub uninterp spec fn list_names(list: NameList) -> Seq<Seq<char>>;

/// What the map holds: for each directory path, its file names and its
/// subdirectory names.
pub uninterp spec fn groups(map: Groups) -> GroupModel;

/// The picture of a pair of lists.
pub open spec fn lists_model(lists: Lists) -> ListsModel {
    (list_names(lists.0), list_names(lists.1))
}

/// `items` lists every key of `model` exactly once, each with the lists the
/// model holds for it, in no particular order.
pub open spec fn is_listing(items: Seq<Group>, model: GroupModel) -> bool {
    &&& forall|k: int|
        0 <= k < items.len() ==> model.contains_key((#[trigger] items[k]).0@) && model[items[k].0@]
            == lists_model(items[k].1)
    &&& forall|key: Seq<char>|
        model.contains_key(key) ==> exists|k: int|
            0 <= k < items.len() && (#[trigger] items[k]).0@ == key
    &&& forall|a: int, b: int|
        0 <= a < b < items.len() ==> (#[trigger] items[a]).0@ != (#[trigger] items[b]).0@
}

/// `SmallVec::new`: a list that holds nothing.
#[verifier::external_body]
pub(crate) fn list_new() -> (list: NameList)
    ensures
        list_names(list) == Seq::<Seq<char>>::empty(),
{
    NameList { inner: SmallVec::new() }
}

/// `SmallVec::push`: the value is added behind the ones already held.
#[verifier::external_body]
pub(crate) fn list_push(list: &mut NameList, name: String)
    ensures
        list_names(*final(list)) == list_names(*old(list)).push(name@),
{
    list.inner.push(name)
}

/// `SmallVec::into_vec`: the same values in the same order, as a `Vec`.
#[verifier::external_body]
pub(crate) fn list_into_vec(list: NameList) -> (names: Vec<String>)
    ensures
        names.deep_view() == list_names(list),
{
    list.inner.into_vec()
}

/// `DashMap::new`: a map that holds nothing.
#[verifier::external_body]
pub(crate) fn groups_new() -> (map: Groups)
    ensures
        groups(map) == GroupModel::empty(),
{
    DashMap::new()
}

/// `DashMap::remove`: the key's lists leave the map and are handed out, or
/// nothing changes and nothing is handed out when the key is absent. The map
/// is borrowed exclusively, so no other thread interferes.
#[verifier::external_body]
pub(crate) fn groups_take(map: &mut Groups, key: &str) -> (taken: Option<Lists>)
    ensures
        groups(*final(map)) == groups(*old(map)).remove(key@),
        match taken {
            Some(lists) => groups(*old(map)).contains_key(key@) && groups(*old(map))[key@]
                == lists_model(lists),
            None => !groups(*old(map)).contains_key(key@),
        },
{
    map.remove(key).map(|pair| pair.1)
}

/// `DashMap::insert`: afterwards the key holds the given lists, whatever it
/// held before; other keys are untouched.
#[verifier::external_body]
pub(crate) fn groups_put(map: &mut Groups, key: String, lists: Lists)
    ensures
        groups(*final(map)) == groups(*old(map)).insert(key@, lists_model(lists)),
{
    map.insert(key, lists);
}

/// `DashMap::into_iter`: every key comes out exactly once with its lists; the
/// order follows the shards and the hasher and is not stated.
#[verifier::external_body]
pub(crate) fn groups_drain(map: Groups) -> (items: Vec<Group>)
    ensures
        is_listing(items@, groups(map)),
{
    map.into_iter().collect()
}

} // verus!
