//! Feature tables as text: which column holds a feature, which value each
//! node has in that column, and the distances of the nodes with one value.

use crate::edge_list::strings_view;
use crate::text::{field_number, field_numbers, number_at};
use crate::traversal::{flattened_present, present_values, rows_view};
use std::collections::HashMap;
use vstd::prelude::*;

verus! {

broadcast use vstd::std_specs::hash::group_hash_axioms;

/// The column number that stands for "no column found".
pub const NO_COLUMN: usize = 12345;

/// Why a feature table could not be read.
#[derive(Debug, Clone, Copy, PartialEq, Eq)]
pub enum FeatureError {
    /// No line names the feature.
    NotFound,
    /// The line at this position lacks a field or holds something that is
    /// no number. The position after the last line of the table stands for
    /// the line of the ego node.
    Malformed(usize),
}

/// The line names a feature other than `feature`: its fourth field is a
/// number, and another one.
pub open spec fn names_other(line: Seq<char>, feature: usize) -> bool {
    match number_at(line, 3) {
        Some(index) => index != feature,
        None => false,
    }
}

/// The search for `feature` stops at line `at`: every line before names
/// another feature, and this one does not.
pub open spec fn stops_at(names: Seq<Seq<char>>, feature: usize, at: int) -> bool {
    &&& 0 <= at < names.len()
    &&& forall|i: int| 0 <= i < at ==> names_other(#[trigger] names[i], feature)
    &&& !names_other(names[at], feature)
}

/// What the line at which the search stops gives: the column of the
/// feature, one more than the number in the first field of the line. A line
/// without a number in its fourth or its first field is malformed, and so
/// is one whose first field holds the greatest number there is. The column
/// `NO_COLUMN` counts as not found.
pub open spec fn column_in(line: Seq<char>, at: usize) -> Result<usize, FeatureError> {
    match (number_at(line, 3), number_at(line, 0)) {
        (Some(_), Some(id)) => if id == usize::MAX {
            Err(FeatureError::Malformed(at))
        } else if id + 1 == NO_COLUMN {
            Err(FeatureError::NotFound)
        } else {
            Ok((id + 1) as usize)
        },
        _ => Err(FeatureError::Malformed(at)),
    }
}

/// Finds the column that holds `feature`. The lines of the names table are
/// searched in their order for the first whose fourth field is `feature`;
/// the lines after it are not looked at.
pub fn feature_column(names: &Vec<String>, feature: usize) -> (column: Result<usize, FeatureError>)
    ensures
        forall|at: int|
            stops_at(strings_view(names@), feature, at) ==> column == column_in(
                strings_view(names@)[at],
                at as usize,
            ),
        (forall|i: int| 0 <= i < names@.len() ==> names_other(#[trigger] strings_view(names@)[i], feature))
            ==> column == Err::<usize, FeatureError>(FeatureError::NotFound),
{
    let ghost lines = strings_view(names@);
    for k in 0..names.len()
        invariant
            lines == strings_view(names@),
            forall|i: int| 0 <= i < k ==> names_other(#[trigger] lines[i], feature),
    {
        let line = names[k].as_str();
        assert(line@ == lines[k as int]);
        let found: Option<Result<usize, FeatureError>> = match field_number(line, 3) {
            None => Some(Err(FeatureError::Malformed(k))),
            Some(index) => {
                if index != feature {
                    None
                } else {
                    match field_number(line, 0) {
                        None => Some(Err(FeatureError::Malformed(k))),
                        Some(id) => {
                            if id == usize::MAX {
                                Some(Err(FeatureError::Malformed(k)))
                            } else if id + 1 == NO_COLUMN {
                                Some(Err(FeatureError::NotFound))
                            } else {
                                Some(Ok(id + 1))
                            }
                        },
                    }
                }
            },
        };
        match found {
            Some(outcome) => {
                return outcome;
            },
            None => {},
        }
    }
    Err(FeatureError::NotFound)
}

/// The node and its value that a line of the feature table spells: the node
/// in the first field, the value in field `column`.
pub open spec fn entry_of(line: Seq<char>, column: usize) -> Option<(usize, usize)> {
    match (number_at(line, column as int), number_at(line, 0)) {
        (Some(value), Some(node)) => Some((node, value)),
        _ => None,
    }
}

/// The table that the lines spell: each line gives its node its value, and
/// a later line for a node replaces an earlier one.
pub open spec fn table_of(rows: Seq<Seq<char>>, column: usize) -> Map<usize, usize>
    decreases rows.len(),
{
    if rows.len() == 0 {
        Map::empty()
    } else {
        let entry = entry_of(rows.last(), column).unwrap();
        table_of(rows.drop_last(), column).insert(entry.0, entry.1)
    }
}

/// Reads the value that each node has in `column`. Every line of `rows`
/// gives the value of the node in its first field; `ego_row` has no node
/// field and gives, in field `column`, the value of the node `ego`, which
/// replaces what `rows` may say of that node.
pub fn feature_table(rows: &Vec<String>, ego_row: &str, column: usize, ego: usize) -> (table: Result<
    HashMap<usize, usize>,
    FeatureError,
>)
    ensures
        match table {
            Ok(values) => {
                &&& forall|i: int| 0 <= i < rows@.len() ==> entry_of(#[trigger] strings_view(rows@)[i], column) is Some
                &&& number_at(ego_row@, column as int) is Some
                &&& values@ == table_of(strings_view(rows@), column).insert(
                    ego,
                    number_at(ego_row@, column as int).unwrap(),
                )
            },
            Err(FeatureError::Malformed(bad)) => {
                &&& bad <= rows@.len()
                &&& forall|i: int| 0 <= i < bad ==> entry_of(#[trigger] strings_view(rows@)[i], column) is Some
                &&& bad < rows@.len() ==> entry_of(strings_view(rows@)[bad as int], column) is None
                &&& bad == rows@.len() ==> number_at(ego_row@, column as int) is None
            },
            Err(FeatureError::NotFound) => false,
        },
{
    let ghost lines = strings_view(rows@);
    let mut values: HashMap<usize, usize> = HashMap::new();
    for k in 0..rows.len()
        invariant
            lines == strings_view(rows@),
            forall|i: int| 0 <= i < k ==> entry_of(#[trigger] lines[i], column) is Some,
            values@ == table_of(lines.take(k as int), column),
    {
        let line = rows[k].as_str();
        match field_numbers(line, column, 0) {
            None => {
                return Err(FeatureError::Malformed(k));
            },
            Some((value, node)) => {
                values.insert(node, value);
                proof {
                    let next = lines.take(k + 1);
                    assert(next.drop_last() == lines.take(k as int));
                }
            },
        }
    }
    assert(lines.take(lines.len() as int) == lines);
    match field_number(ego_row, column) {
        None => Err(FeatureError::Malformed(rows.len())),
        Some(value) => {
            values.insert(ego, value);
            Ok(values)
        },
    }
}

/// The rows of the nodes below `upto` to which `features` gives `value`, in
/// the order of the nodes.
pub open spec fn rows_with(
    rows: Seq<Seq<Option<usize>>>,
    features: Map<usize, usize>,
    value: usize,
    upto: int,
) -> Seq<Seq<Option<usize>>>
    decreases upto,
{
    if upto <= 0 {
        Seq::empty()
    } else {
        let before = rows_with(rows, features, value, upto - 1);
        let node = (upto - 1) as usize;
        if features.contains_key(node) && features[node] == value {
            before.push(rows[upto - 1])
        } else {
            before
        }
    }
}

/// Gathers the distances from the nodes to which `features` gives `value`:
/// the rows of these nodes, in ascending order of the nodes, each without
/// its absent entries. A node of `features` that has no row is passed over.
pub fn distances_with_feature(
    matrix: &Vec<Vec<Option<usize>>>,
    features: &HashMap<usize, usize>,
    value: usize,
) -> (flat: Vec<usize>)
    ensures
        flat@ == flattened_present(rows_with(rows_view(matrix@), features@, value, matrix@.len() as int)),
{
    let ghost rows = rows_view(matrix@);
    let mut flat: Vec<usize> = Vec::new();
    for node in 0..matrix.len()
        invariant
            rows == rows_view(matrix@),
            flat@ == flattened_present(rows_with(rows, features@, value, node as int)),
    {
        let chosen = match features.get(&node) {
            Some(found) => *found == value,
            None => false,
        };
        if chosen {
            let row = &matrix[node];
            let ghost head = flat@;
            let ghost picked = rows_with(rows, features@, value, node as int);
            for c in 0..row.len()
                invariant
                    row@ == rows[node as int],
                    flat@ == head + present_values(row@.take(c as int)),
            {
                match row[c] {
                    Some(d) => {
                        flat.push(d);
                    },
                    None => {},
                }
                proof {
                    let next = row@.take(c + 1);
                    assert(next.drop_last() == row@.take(c as int));
                }
            }
            proof {
                assert(row@.take(row@.len() as int) == row@);
                let grown = picked.push(rows[node as int]);
                assert(grown.drop_last() == picked);
            }
        }
    }
    flat
}

} // verus!
