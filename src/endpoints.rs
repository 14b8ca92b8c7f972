//! The addresses of the spreadsheet and script-project services.
use vstd::prelude::*;
use crate::text::{join, join_with, views};

verus! {

pub const SHEETS_BASE: &'static str = "https://sheets.googleapis.com/v4/spreadsheets/";

pub const SCRIPT_BASE: &'static str = "https://script.googleapis.com/v1/projects";

pub const TOKEN_QUERY: &'static str = "?access_token=";

pub const USER_ENTERED: &'static str = "&valueInputOption=USER_ENTERED";

pub const RANGE_SEPARATOR: &'static str = "&ranges=";

/// The address of a spreadsheet.
pub fn spreadsheet_url(spreadsheet_id: &str, token: &str) -> (r: String)
    ensures
        r@ == SHEETS_BASE@ + spreadsheet_id@ + TOKEN_QUERY@ + token@,
{
    let mut out = String::from_str(SHEETS_BASE);
    out.append(spreadsheet_id);
    out.append(TOKEN_QUERY);
    out.append(token);
    out
}

/// The address that applies a batch of updates to a spreadsheet.
pub fn batch_update_url(spreadsheet_id: &str, token: &str) -> (r: String)
    ensures
        r@ == SHEETS_BASE@ + spreadsheet_id@ + ":batchUpdate"@ + TOKEN_QUERY@ + token@,
{
    let mut out = String::from_str(SHEETS_BASE);
    out.append(spreadsheet_id);
    out.append(":batchUpdate");
    out.append(TOKEN_QUERY);
    out.append(token);
    out
}

/// The address that reads several ranges, as columns.
pub fn batch_get_url(spreadsheet_id: &str, ranges: &[String], token: &str) -> (r: String)
    ensures
        r@ == SHEETS_BASE@ + spreadsheet_id@ + "/values:batchGet?ranges="@ + join(views(ranges@), RANGE_SEPARATOR@)
            + "&majorDimension=COLUMNS&access_token="@ + token@,
{
    let joined = join_with(ranges, RANGE_SEPARATOR);
    let mut out = String::from_str(SHEETS_BASE);
    out.append(spreadsheet_id);
    out.append("/values:batchGet?ranges=");
    out.append(joined.as_str());
    out.append("&majorDimension=COLUMNS&access_token=");
    out.append(token);
    out
}

/// The address that overwrites a range with values entered as a user would.
pub fn update_values_url(spreadsheet_id: &str, range: &str, token: &str) -> (r: String)
    ensures
        r@ == SHEETS_BASE@ + spreadsheet_id@ + "/values/"@ + range@ + TOKEN_QUERY@ + token@ + USER_ENTERED@,
{
    let mut out = String::from_str(SHEETS_BASE);
    out.append(spreadsheet_id);
    out.append("/values/");
    out.append(range);
    out.append(TOKEN_QUERY);
    out.append(token);
    out.append(USER_ENTERED);
    out
}

/// The address that appends values after a range, entered as a user would.
pub fn append_values_url(spreadsheet_id: &str, range: &str, token: &str) -> (r: String)
    ensures
        r@ == SHEETS_BASE@ + spreadsheet_id@ + "/values/"@ + range@ + ":append"@ + TOKEN_QUERY@ + token@
            + USER_ENTERED@,
{
    let mut out = String::from_str(SHEETS_BASE);
    out.append(spreadsheet_id);
    out.append("/values/");
    out.append(range);
    out.append(":append");
    out.append(TOKEN_QUERY);
    out.append(token);
    out.append(USER_ENTERED);
    out
}

/// The address that creates script projects.
pub fn projects_url(token: &str) -> (r: String)
    ensures
        r@ == SCRIPT_BASE@ + TOKEN_QUERY@ + token@,
{
    let mut out = String::from_str(SCRIPT_BASE);
    out.append(TOKEN_QUERY);
    out.append(token);
    out
}

/// The address of the content of a script project.
pub fn project_content_url(script_id: &str, token: &str) -> (r: String)
    ensures
        r@ == SCRIPT_BASE@ + "/"@ + script_id@ + "/content"@ + TOKEN_QUERY@ + token@,
{
    let mut out = String::from_str(SCRIPT_BASE);
    out.append("/");
    out.append(script_id);
    out.append("/content");
    out.append(TOKEN_QUERY);
    out.append(token);
    out
}

} // verus!
