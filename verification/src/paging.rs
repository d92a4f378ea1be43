//! How a page of orders is asked for: the column and direction to sort by,
//! the filter, and the offset of the page.

use vstd::prelude::*;
use vstd::string::StringExecFns;

verus! {

/// The column that a list of orders is sorted by.
#[derive(Clone, Copy, Debug, PartialEq, Eq, Structural)]
pub enum SortColumn {
    CarValue,
    Status,
    OrderTime,
}

/// The direction that a list of orders is sorted in.
#[derive(Clone, Copy, Debug, PartialEq, Eq, Structural)]
pub enum SortDirection {
    Ascending,
    Descending,
}

/// Which of status and area a list of orders is filtered by.
#[derive(Clone, Copy, Debug, PartialEq, Eq, Structural)]
pub enum OrderFilter {
    StatusAndArea,
    AreaOnly,
    StatusOnly,
    Unfiltered,
}

/// The column that the word `sort_by` names; the order time where it names
/// none, or is missing.
pub open spec fn sort_column_of(sort_by: Option<Seq<char>>) -> SortColumn {
    match sort_by {
        Some(word) => if word == "car_value"@ {
            SortColumn::CarValue
        } else if word == "status"@ {
            SortColumn::Status
        } else {
            SortColumn::OrderTime
        },
        None => SortColumn::OrderTime,
    }
}

/// The direction that the word `sort_order` names: descending for `DESC`
/// and `desc`, ascending for every other word and where it is missing.
pub open spec fn sort_direction_of(sort_order: Option<Seq<char>>) -> SortDirection {
    match sort_order {
        Some(word) => if word == "DESC"@ || word == "desc"@ {
            SortDirection::Descending
        } else {
            SortDirection::Ascending
        },
        None => SortDirection::Ascending,
    }
}

/// The view of an optional word.
pub open spec fn word_of(word: Option<String>) -> Option<Seq<char>> {
    match word {
        Some(w) => Some(w@),
        None => None,
    }
}

/// The column to sort by.
pub fn sort_column(sort_by: &Option<String>) -> (column: SortColumn)
    ensures
        column == sort_column_of(word_of(*sort_by)),
{
    match sort_by {
        Some(word) => {
            if *word == "car_value".to_owned() {
                SortColumn::CarValue
            } else if *word == "status".to_owned() {
                SortColumn::Status
            } else {
                SortColumn::OrderTime
            }
        },
        None => SortColumn::OrderTime,
    }
}

/// The direction to sort in.
pub fn sort_direction(sort_order: &Option<String>) -> (direction: SortDirection)
    ensures
        direction == sort_direction_of(word_of(*sort_order)),
{
    match sort_order {
        Some(word) => {
            if *word == "DESC".to_owned() || *word == "desc".to_owned() {
                SortDirection::Descending
            } else {
                SortDirection::Ascending
            }
        },
        None => SortDirection::Ascending,
    }
}

/// The name of `column` in a query over the orders.
pub fn column_name(column: SortColumn) -> (name: &'static str)
    ensures
        name@ == (match column {
            SortColumn::CarValue => "o.car_value"@,
            SortColumn::Status => "o.status"@,
            SortColumn::OrderTime => "o.order_time"@,
        }),
{
    match column {
        SortColumn::CarValue => "o.car_value",
        SortColumn::Status => "o.status",
        SortColumn::OrderTime => "o.order_time",
    }
}

/// The word for `direction` in a query.
pub fn direction_word(direction: SortDirection) -> (word: &'static str)
    ensures
        word@ == (match direction {
            SortDirection::Ascending => "ASC"@,
            SortDirection::Descending => "DESC"@,
        }),
{
    match direction {
        SortDirection::Ascending => "ASC",
        SortDirection::Descending => "DESC",
    }
}

/// The filter for a list of orders, by what was given.
pub fn order_filter(status_given: bool, area_given: bool) -> (filter: OrderFilter)
    ensures
        filter == (if status_given && area_given {
            OrderFilter::StatusAndArea
        } else if area_given {
            OrderFilter::AreaOnly
        } else if status_given {
            OrderFilter::StatusOnly
        } else {
            OrderFilter::Unfiltered
        }),
{
    if status_given && area_given {
        OrderFilter::StatusAndArea
    } else if area_given {
        OrderFilter::AreaOnly
    } else if status_given {
        OrderFilter::StatusOnly
    } else {
        OrderFilter::Unfiltered
    }
}

/// The condition of `filter` in a query over the orders; the empty text
/// where nothing is filtered.
pub fn filter_clause(filter: OrderFilter) -> (clause: &'static str)
    ensures
        clause@ == (match filter {
            OrderFilter::StatusAndArea => "WHERE o.status = ? AND o.area_id = ?"@,
            OrderFilter::AreaOnly => "WHERE o.area_id = ?"@,
            OrderFilter::StatusOnly => "WHERE o.status = ?"@,
            OrderFilter::Unfiltered => ""@,
        }),
{
    match filter {
        OrderFilter::StatusAndArea => "WHERE o.status = ? AND o.area_id = ?",
        OrderFilter::AreaOnly => "WHERE o.area_id = ?",
        OrderFilter::StatusOnly => "WHERE o.status = ?",
        OrderFilter::Unfiltered => "",
    }
}

/// The number of orders that stand before page `page` when each page holds
/// `page_size` orders, where that number fits.
pub fn page_offset(page: i32, page_size: i32) -> (offset: Option<i32>)
    ensures
        offset == (if i32::MIN <= page * page_size <= i32::MAX {
            Some((page * page_size) as i32)
        } else {
            None
        }),
{
    page.checked_mul(page_size)
}

/// The column and direction to sort by, as they stand in a query.
pub open spec fn order_clause_text(column: SortColumn, direction: SortDirection) -> Seq<char> {
    "ORDER BY "@ + (match column {
        SortColumn::CarValue => "o.car_value"@,
        SortColumn::Status => "o.status"@,
        SortColumn::OrderTime => "o.order_time"@,
    }) + " "@ + (match direction {
        SortDirection::Ascending => "ASC"@,
        SortDirection::Descending => "DESC"@,
    })
}

/// The text that sorts a query over the orders by `column` in `direction`.
pub fn order_clause(column: SortColumn, direction: SortDirection) -> (clause: String)
    ensures
        clause@ == order_clause_text(column, direction),
{
    let mut clause = "ORDER BY ".to_owned();
    clause.append(column_name(column));
    clause.append(" ");
    clause.append(direction_word(direction));
    clause
}

/// The query for one page of orders: the columns of an order, the filter if
/// there is one, the sorting, and a limit and an offset to fill in. The
/// area is among the columns because an order is shown with its area, in a
/// list as when it is fetched alone, and a row without it is no order.
pub open spec fn orders_page_text(
    filter: OrderFilter,
    column: SortColumn,
    direction: SortDirection,
) -> Seq<char> {
    "SELECT o.id, o.client_id, o.dispatcher_id, o.tow_truck_id, o.status, o.node_id, o.area_id, o.car_value, o.order_time, o.completed_time FROM orders o "@
        + (match filter {
        OrderFilter::StatusAndArea => "WHERE o.status = ? AND o.area_id = ?"@,
        OrderFilter::AreaOnly => "WHERE o.area_id = ?"@,
        OrderFilter::StatusOnly => "WHERE o.status = ?"@,
        OrderFilter::Unfiltered => ""@,
    }) + " "@ + order_clause_text(column, direction) + " LIMIT ? OFFSET ?"@
}

/// The query for one page of orders, filtered and sorted as asked.
pub fn orders_page_query(
    sort_by: &Option<String>,
    sort_order: &Option<String>,
    status_given: bool,
    area_given: bool,
) -> (query: String)
    ensures
        query@ == orders_page_text(
            if status_given && area_given {
                OrderFilter::StatusAndArea
            } else if area_given {
                OrderFilter::AreaOnly
            } else if status_given {
                OrderFilter::StatusOnly
            } else {
                OrderFilter::Unfiltered
            },
            sort_column_of(word_of(*sort_by)),
            sort_direction_of(word_of(*sort_order)),
        ),
{
    let clause = order_clause(sort_column(sort_by), sort_direction(sort_order));
    let mut query =
        "SELECT o.id, o.client_id, o.dispatcher_id, o.tow_truck_id, o.status, o.node_id, o.area_id, o.car_value, o.order_time, o.completed_time FROM orders o ".to_owned();
    query.append(filter_clause(order_filter(status_given, area_given)));
    query.append(" ");
    query.append(clause.as_str());
    query.append(" LIMIT ? OFFSET ?");
    query
}

/// `count` question marks with commas between them.
pub open spec fn placeholder_text(count: nat) -> Seq<char>
    decreases count,
{
    if count == 0 {
        Seq::empty()
    } else if count == 1 {
        "?"@
    } else {
        placeholder_text((count - 1) as nat) + ","@ + "?"@
    }
}

/// One placeholder for each of `count` values, separated by commas.
pub fn placeholders(count: usize) -> (text: String)
    ensures
        text@ == placeholder_text(count as nat),
{
    let mut text = String::new();
    let mut i: usize = 0;
    while i < count
        invariant
            0 <= i <= count,
            text@ == placeholder_text(i as nat),
        decreases count - i,
    {
        if i > 0 {
            text.append(",");
        }
        text.append("?");
        proof {
            if i == 0 {
                assert(text@ =~= "?"@);
            } else {
                assert(text@ =~= placeholder_text(i as nat) + ","@ + "?"@);
            }
        }
        i += 1;
    }
    text
}

/// The query for the rows of `table` whose id is one of `count` values.
pub fn rows_by_ids_query(table: &str, count: usize) -> (query: String)
    ensures
        query@ == "SELECT * FROM "@ + table@ + " WHERE id IN ("@ + placeholder_text(count as nat)
            + ")"@,
{
    let marks = placeholders(count);
    let mut query = "SELECT * FROM ".to_owned();
    query.append(table);
    query.append(" WHERE id IN (");
    query.append(marks.as_str());
    query.append(")");
    query
}

} // verus!
