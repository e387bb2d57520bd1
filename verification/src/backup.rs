//! The name under which the collection database is backed up before it is
//! rewritten.

use vstd::prelude::*;
use vstd::string::StringExecFns;

verus! {

/// The backup's file name for a point in time, given as the text of each of
/// its fields: `collection_backup_`, the six fields with `-` between them,
/// and `.db`.
pub open spec fn backup_name_text(
    year: Seq<char>,
    month: Seq<char>,
    day: Seq<char>,
    hour: Seq<char>,
    minute: Seq<char>,
    second: Seq<char>,
) -> Seq<char> {
    "collection_backup_"@ + year + "-"@ + month + "-"@ + day + "-"@ + hour + "-"@ + minute
        + "-"@ + second + ".db"@
}

/// The file name of a backup made at the time whose fields are given.
pub fn get_backup_file_name(
    year: &str,
    month: &str,
    day: &str,
    hour: &str,
    minute: &str,
    second: &str,
) -> (name: String)
    ensures
        name@ == backup_name_text(year@, month@, day@, hour@, minute@, second@),
{
    let mut name = String::from_str("collection_backup_");
    name.append(year);
    name.append("-");
    name.append(month);
    name.append("-");
    name.append(day);
    name.append("-");
    name.append(hour);
    name.append("-");
    name.append(minute);
    name.append("-");
    name.append(second);
    name.append(".db");
    name
}

} // verus!
