//! The board's tables are `IndexMap`s keyed by small integers: a square by
//! its place in display order, a side by its code. This module says what
//! the map operations used by the engine do to a table's contents. Nothing
//! here is proved: each function below states what `indexmap` documents of
//! the method it calls.

use crate::structs::{view_lines, CastlingRights, Piece, Square};
use indexmap::IndexMap;
use vstd::prelude::*;

verus! {

#[verifier::external_type_specification]
#[verifier::external_body]
#[verifier::reject_recursive_types(K)]
#[verifier::reject_recursive_types(V)]
#[verifier::reject_recursive_types(S)]
pub struct ExIndexMap<K, V, S>(IndexMap<K, V, S>);

/// The pieces that a placement table holds, by the place of their square.
pub uninterp spec fn placed(table: IndexMap<u8, Piece>) -> Map<u8, Piece>;

/// The attack lines that a cache holds, by the place of the square they
/// start from.
pub uninterp spec fn cached(table: IndexMap<u8, Vec<Vec<Square>>>) -> Map<u8, Seq<Seq<Square>>>;

/// The king squares that a table holds, by the code of the side.
pub uninterp spec fn seated(table: IndexMap<u8, Square>) -> Map<u8, Square>;

/// The castling rights that a table holds, by the code of the side.
pub uninterp spec fn granted(table: IndexMap<u8, CastlingRights>) -> Map<u8, CastlingRights>;

/// `IndexMap::new`: the new table holds nothing.
#[verifier::external_body]
pub(crate) fn pieces_new() -> (fresh: IndexMap<u8, Piece>)
    ensures
        placed(fresh) == (Map::<u8, Piece>::empty()),
{
    IndexMap::new()
}

/// `IndexMap::get`: the piece stored under `key`, if there is one.
#[verifier::external_body]
pub(crate) fn pieces_get(table: &IndexMap<u8, Piece>, key: u8) -> (found: Option<Piece>)
    ensures
        found == (if placed(*table).contains_key(key) {
            Some(placed(*table)[key])
        } else {
            None
        }),
{
    table.get(&key).copied()
}

/// `IndexMap::insert`: afterwards `key` holds `piece` and every other key
/// holds what it held. Returns what `key` held before.
#[verifier::external_body]
pub(crate) fn pieces_insert(table: &mut IndexMap<u8, Piece>, key: u8, piece: Piece) -> (before:
    Option<Piece>)
    ensures
        placed(*final(table)) == placed(*old(table)).insert(key, piece),
        before == (if placed(*old(table)).contains_key(key) {
            Some(placed(*old(table))[key])
        } else {
            None
        }),
{
    table.insert(key, piece)
}

/// `IndexMap::swap_remove`: afterwards `key` holds nothing and every other
/// key holds what it held. Returns what `key` held before.
#[verifier::external_body]
pub(crate) fn pieces_swap_remove(table: &mut IndexMap<u8, Piece>, key: u8) -> (before: Option<
    Piece,
>)
    ensures
        placed(*final(table)) == placed(*old(table)).remove(key),
        before == (if placed(*old(table)).contains_key(key) {
            Some(placed(*old(table))[key])
        } else {
            None
        }),
{
    table.swap_remove(&key)
}

/// Some entry of the list is stored under `key`.
pub open spec fn lists(entries: Seq<(u8, Piece)>, key: u8) -> bool {
    exists|i: int| 0 <= i < entries.len() && (#[trigger] entries[i]).0 == key
}

/// `IndexMap::iter`: the entries of the table. Every entry of the list is
/// one of the table, and every key of the table has its entry in the list.
#[verifier::external_body]
pub(crate) fn pieces_entries(table: &IndexMap<u8, Piece>) -> (entries: Vec<(u8, Piece)>)
    ensures
        forall|i: int|
            0 <= i < entries.len() ==> placed(*table).contains_key((#[trigger] entries[i]).0)
                && placed(*table)[entries[i].0] == entries[i].1,
        forall|key: u8| placed(*table).contains_key(key) ==> #[trigger] lists(entries@, key),
{
    table.iter().map(|(key, piece)| (*key, *piece)).collect()
}

/// `IndexMap::new`: the new cache holds nothing.
#[verifier::external_body]
pub(crate) fn lines_new() -> (fresh: IndexMap<u8, Vec<Vec<Square>>>)
    ensures
        cached(fresh) == (Map::<u8, Seq<Seq<Square>>>::empty()),
{
    IndexMap::new()
}

/// `IndexMap::get`: the lines stored under `key`, if there are any.
#[verifier::external_body]
pub(crate) fn lines_get(table: &IndexMap<u8, Vec<Vec<Square>>>, key: u8) -> (found: Option<
    &Vec<Vec<Square>>,
>)
    ensures
        found.is_some() == cached(*table).contains_key(key),
        found matches Some(lines) ==> view_lines(lines@) == cached(*table)[key],
{
    table.get(&key)
}

/// `IndexMap::insert`: afterwards `key` holds `lines` and every other key
/// holds what it held.
#[verifier::external_body]
pub(crate) fn lines_insert(table: &mut IndexMap<u8, Vec<Vec<Square>>>, key: u8, lines: Vec<
    Vec<Square>,
>)
    ensures
        cached(*final(table)) == cached(*old(table)).insert(key, view_lines(lines@)),
{
    table.insert(key, lines);
}

/// `IndexMap::swap_remove`: afterwards `key` holds nothing and every other
/// key holds what it held.
#[verifier::external_body]
pub(crate) fn lines_swap_remove(table: &mut IndexMap<u8, Vec<Vec<Square>>>, key: u8)
    ensures
        cached(*final(table)) == cached(*old(table)).remove(key),
{
    table.swap_remove(&key);
}

/// `IndexMap::new`: the new table holds nothing.
#[verifier::external_body]
pub(crate) fn kings_new() -> (fresh: IndexMap<u8, Square>)
    ensures
        seated(fresh) == (Map::<u8, Square>::empty()),
{
    IndexMap::new()
}

/// `IndexMap::get`: the square stored under `key`, if there is one.
#[verifier::external_body]
pub(crate) fn kings_get(table: &IndexMap<u8, Square>, key: u8) -> (found: Option<Square>)
    ensures
        found == (if seated(*table).contains_key(key) {
            Some(seated(*table)[key])
        } else {
            None
        }),
{
    table.get(&key).copied()
}

/// `IndexMap::insert`: afterwards `key` holds `square` and every other key
/// holds what it held.
#[verifier::external_body]
pub(crate) fn kings_insert(table: &mut IndexMap<u8, Square>, key: u8, square: Square)
    ensures
        seated(*final(table)) == seated(*old(table)).insert(key, square),
{
    table.insert(key, square);
}

/// `IndexMap::new`: the new table holds nothing.
#[verifier::external_body]
pub(crate) fn rights_new() -> (fresh: IndexMap<u8, CastlingRights>)
    ensures
        granted(fresh) == (Map::<u8, CastlingRights>::empty()),
{
    IndexMap::new()
}

/// `IndexMap::get`: the rights stored under `key`, if there are any.
#[verifier::external_body]
pub(crate) fn rights_get(table: &IndexMap<u8, CastlingRights>, key: u8) -> (found: Option<
    CastlingRights,
>)
    ensures
        found == (if granted(*table).contains_key(key) {
            Some(granted(*table)[key])
        } else {
            None
        }),
{
    table.get(&key).copied()
}

/// `IndexMap::insert`: afterwards `key` holds `rights` and every other key
/// holds what it held.
#[verifier::external_body]
pub(crate) fn rights_insert(table: &mut IndexMap<u8, CastlingRights>, key: u8, rights:
    CastlingRights)
    ensures
        granted(*final(table)) == granted(*old(table)).insert(key, rights),
{
    table.insert(key, rights);
}

/// `IndexMap::clone`: the copy holds what the table holds.
#[verifier::external_body]
pub(crate) fn rights_clone(table: &IndexMap<u8, CastlingRights>) -> (copy: IndexMap<
    u8,
    CastlingRights,
>)
    ensures
        granted(copy) == granted(*table),
{
    table.clone()
}

} // verus!
