//! The rows of the picker: one for each project, with how long ago it was
//! touched.

use crate::number::{push_signed, signed};
use crate::picker::Item;
use crate::store::Project;
use vstd::prelude::*;

verus! {

/// So many units ago.
pub open spec fn plural_text(n: int, unit: Seq<char>) -> Seq<char> {
    if n == 1 {
        "1 "@ + unit + " ago"@
    } else {
        signed(n) + " "@ + unit + "s ago"@
    }
}

/// So many units ago.
pub fn plural(n: i64, unit: &str) -> (r: String)
    ensures
        r@ == plural_text(n as int, unit@),
{
    if n == 1 {
        "1 ".to_owned().concat(unit).concat(" ago")
    } else {
        let mut count = String::new();
        push_signed(&mut count, n);
        let out = count.concat(" ").concat(unit).concat("s ago");
        proof {
            assert(out@ =~= signed(n as int) + " "@ + unit@ + "s ago"@);
        }
        out
    }
}

/// How long ago something was, in words: in days up to a month, in months up to
/// a year, and in years from then on. What lies ahead is today.
pub open spec fn ago(days: int) -> Seq<char> {
    if days <= 0 {
        "today"@
    } else if days == 1 {
        "yesterday"@
    } else if days <= 29 {
        signed(days) + " days ago"@
    } else if days <= 364 {
        plural_text(days / 30, "month"@)
    } else {
        plural_text(days / 365, "year"@)
    }
}

/// How long ago a day was: nothing where it is not known.
pub open spec fn age_text(day: Option<i32>, today: i32) -> Seq<char> {
    match day {
        Some(day) => ago(today - day),
        None => Seq::empty(),
    }
}

/// How long ago a day was. Days are counted through, from any one day on.
pub fn age(day: Option<i32>, today: i32) -> (r: String)
    ensures
        r@ == age_text(day, today),
{
    let days: i64 = match day {
        Some(day) => today as i64 - day as i64,
        None => {
            return String::new();
        },
    };
    if days <= 0 {
        "today".to_owned()
    } else if days == 1 {
        "yesterday".to_owned()
    } else if days <= 29 {
        let mut count = String::new();
        push_signed(&mut count, days);
        let out = count.concat(" days ago");
        proof {
            assert(out@ =~= signed(days as int) + " days ago"@);
        }
        out
    } else if days <= 364 {
        plural(days / 30, "month")
    } else {
        plural(days / 365, "year")
    }
}

/// A row for each project, named after it and with its age for a hint. `days`
/// holds the day on which each was last modified, where that is known.
pub fn items_for(projects: &[Project], days: &[Option<i32>], today: i32) -> (r: Vec<Item>)
    requires
        projects@.len() == days@.len(),
    ensures
        r@.len() == projects@.len(),
        forall|i: int|
            0 <= i < projects@.len() ==> (#[trigger] r@[i]).label@ == projects@[i].name@
                && r@[i].hint@ == age_text(days@[i], today),
{
    let mut items: Vec<Item> = Vec::new();
    for i in 0..projects.len()
        invariant
            projects@.len() == days@.len(),
            items@.len() == i,
            forall|j: int|
                0 <= j < i ==> (#[trigger] items@[j]).label@ == projects@[j].name@
                    && items@[j].hint@ == age_text(days@[j], today),
    {
        items.push(Item { label: projects[i].name.clone(), hint: age(days[i], today) });
    }
    items
}

/// No age is given as zero or one of a unit in the plural: from two days on, the
/// count of days, months or years is at least one, and the unit is plural
/// exactly where the count is not one.
pub proof fn ages_count_at_least_one(days: int)
    requires
        days >= 2,
    ensures
        days <= 29 ==> ago(days) == signed(days) + " days ago"@,
        30 <= days <= 364 ==> 1 <= days / 30 <= 12 && ago(days) == plural_text(
            days / 30,
            "month"@,
        ),
        days >= 365 ==> days / 365 >= 1 && ago(days) == plural_text(days / 365, "year"@),
{
}

/// How long ago something was is told by the largest unit that fits: days below
/// thirty, months of thirty days below a year, and years of 365 days. One of a unit
/// is told in the singular. What lies ahead is today, and what is not known is
/// not told.
pub proof fn ages_are_told_in_the_largest_unit(day: i32, today: i32)
    ensures
        ({
            let days = today - day;
            let age = age_text(Some(day), today);
            &&& days <= 0 ==> age == "today"@
            &&& days == 1 ==> age == "yesterday"@
            &&& 2 <= days < 30 ==> age == signed(days) + " days ago"@
            &&& 30 <= days < 60 ==> age == "1 month ago"@
            &&& 60 <= days < 365 ==> age == signed(days / 30) + " months ago"@
            &&& 365 <= days < 730 ==> age == "1 year ago"@
            &&& 730 <= days ==> age == signed(days / 365) + " years ago"@
        }),
        age_text(None, today) == Seq::<char>::empty(),
{
    reveal_strlit("1 ");
    reveal_strlit(" ");
    reveal_strlit("month");
    reveal_strlit("year");
    reveal_strlit(" ago");
    reveal_strlit("s ago");
    reveal_strlit("1 month ago");
    reveal_strlit("1 year ago");
    reveal_strlit(" months ago");
    reveal_strlit(" years ago");
    assert("1 "@ + "month"@ + " ago"@ =~= "1 month ago"@);
    assert("1 "@ + "year"@ + " ago"@ =~= "1 year ago"@);
    assert(" "@ + "month"@ + "s ago"@ =~= " months ago"@);
    assert(" "@ + "year"@ + "s ago"@ =~= " years ago"@);
    let days = today - day;
    if 60 <= days < 365 {
        assert(plural_text(days / 30, "month"@) =~= signed(days / 30) + (" "@ + "month"@
            + "s ago"@));
    }
    if 730 <= days {
        assert(plural_text(days / 365, "year"@) =~= signed(days / 365) + (" "@ + "year"@
            + "s ago"@));
    }
}

} // verus!
