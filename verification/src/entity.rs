//! The entity record: a single task/project node ("part") of the
//! hierarchy, and its validation from the wire schema.

use vstd::prelude::*;
use crate::parsing::{i64_to_string, parse_i64, parse_i64_spec, spec_i64_string};
use crate::timefmt;
use crate::timefmt::{ts_representable, dtl_display_of, dtl_input_of, dtl_input_parse};

verus! {

/// A single task/project node. Timestamps are epoch seconds; `parent_id`
/// of `None` marks a root entity (a "project").
#[derive(Debug, Clone, PartialEq, Eq)]
pub struct Part {
    pub id: i64,
    pub name: String,
    pub description: Option<String>,
    pub deadline: Option<i64>,
    pub completed_at: Option<i64>,
    pub parent_id: Option<i64>,
}

/// A part as it travels on the wire: ids, parent ids and epoch-second
/// timestamps are decimal strings.
#[derive(Debug, Clone, PartialEq, Eq)]
pub struct RawPart {
    pub id: String,
    pub name: String,
    pub description: Option<String>,
    pub deadline: Option<String>,
    pub completed_at: Option<String>,
    pub parent_id: Option<String>,
}

/// Reading of a wire timestamp: a decimal second count within chrono's
/// representable range.
pub open spec fn spec_parse_ts(s: Seq<char>) -> Option<i64> {
    match parse_i64_spec(s) {
        None => None,
        Some(t) => if ts_representable(t as int) {
            Some(t)
        } else {
            None
        },
    }
}

/// Reading of an optional decimal field; the outer `None` means the field
/// was present but malformed.
pub open spec fn spec_parse_opt_i64(s: Option<String>) -> Option<Option<i64>> {
    match s {
        None => Some(None),
        Some(txt) => match parse_i64_spec(txt@) {
            None => None,
            Some(v) => Some(Some(v)),
        },
    }
}

/// Reading of an optional wire timestamp; the outer `None` means the field
/// was present but malformed or out of range.
pub open spec fn spec_parse_opt_ts(s: Option<String>) -> Option<Option<i64>> {
    match s {
        None => Some(None),
        Some(txt) => match spec_parse_ts(txt@) {
            None => None,
            Some(v) => Some(Some(v)),
        },
    }
}

/// How a wire record is validated into a `Part`: the id must parse, the
/// parent id (when present) must parse, and both timestamps (when present)
/// must parse and fall in chrono's range.
pub open spec fn spec_parse_part(raw: RawPart) -> Option<Part> {
    match (parse_i64_spec(raw.id@), spec_parse_opt_ts(raw.deadline), spec_parse_opt_ts(
        raw.completed_at,
    ), spec_parse_opt_i64(raw.parent_id)) {
        (Some(id), Some(deadline), Some(completed_at), Some(parent_id)) => Some(
            Part {
                id,
                name: raw.name,
                description: raw.description,
                deadline,
                completed_at,
                parent_id,
            },
        ),
        _ => None,
    }
}

fn parse_ts(s: &str) -> (r: Option<i64>)
    ensures
        r == spec_parse_ts(s@),
{
    match parse_i64(s) {
        None => None,
        Some(t) => if timefmt::ts_in_range(t) {
            Some(t)
        } else {
            None
        },
    }
}

fn parse_opt_ts(s: &Option<String>) -> (r: Option<Option<i64>>)
    ensures
        r == spec_parse_opt_ts(*s),
{
    match s {
        None => Some(None),
        Some(txt) => match parse_ts(txt.as_str()) {
            None => None,
            Some(v) => Some(Some(v)),
        },
    }
}

/// Validates one wire record, exactly as `spec_parse_part` reads it.
pub fn parse_part(raw: &RawPart) -> (r: Option<Part>)
    ensures
        r == spec_parse_part(*raw),
{
    let id = match parse_i64(raw.id.as_str()) {
        Some(v) => v,
        None => {
            return None;
        },
    };
    let deadline = match parse_opt_ts(&raw.deadline) {
        Some(v) => v,
        None => {
            return None;
        },
    };
    let completed_at = match parse_opt_ts(&raw.completed_at) {
        Some(v) => v,
        None => {
            return None;
        },
    };
    let parent_id = match &raw.parent_id {
        None => None,
        Some(p) => match parse_i64(p.as_str()) {
            Some(v) => Some(v),
            None => {
                return None;
            },
        },
    };
    let description = match &raw.description {
        None => None,
        Some(d) => Some(d.clone()),
    };
    Some(
        Part {
            id,
            name: raw.name.clone(),
            description,
            deadline,
            completed_at,
            parent_id,
        },
    )
}

/// The text of an optional timestamp under a rendering that may itself
/// decline (out-of-range dates render as the empty string).
pub open spec fn opt_rendering(rendered: Option<Seq<char>>) -> Seq<char> {
    match rendered {
        Some(cs) => cs,
        None => Seq::empty(),
    }
}

/// What the form-input rendering of an optional timestamp shows.
pub open spec fn spec_opt_ts_input(ts: Option<i64>, off: int) -> Seq<char> {
    match ts {
        None => Seq::empty(),
        Some(t) => opt_rendering(dtl_input_of(t as int, off)),
    }
}

/// What the display rendering of an optional timestamp shows.
pub open spec fn spec_opt_ts_display(ts: Option<i64>, off: int) -> Seq<char> {
    match ts {
        None => Seq::empty(),
        Some(t) => opt_rendering(dtl_display_of(t as int, off)),
    }
}

pub(crate) fn render_opt_ts_input(ts: &Option<i64>, off_secs: i32) -> (r: String)
    ensures
        r@ == spec_opt_ts_input(*ts, off_secs as int),
{
    match ts {
        None => String::new(),
        Some(t) => match timefmt::format_dtl_input(*t, off_secs) {
            Some(s) => s,
            None => String::new(),
        },
    }
}

fn render_opt_ts_display(ts: &Option<i64>, off_secs: i32) -> (r: String)
    ensures
        r@ == spec_opt_ts_display(*ts, off_secs as int),
{
    match ts {
        None => String::new(),
        Some(t) => match timefmt::format_dtl_display(*t, off_secs) {
            Some(s) => s,
            None => String::new(),
        },
    }
}

impl Part {
    /// The deadline as a `datetime-local` form value at the given UTC
    /// offset, or the empty string when unset or unrenderable.
    pub fn deadline_to_input(&self, off_secs: i32) -> (r: String)
        ensures
            r@ == spec_opt_ts_input(self.deadline, off_secs as int),
    {
        render_opt_ts_input(&self.deadline, off_secs)
    }

    /// The completion time as a `datetime-local` form value.
    pub fn completed_at_to_input(&self, off_secs: i32) -> (r: String)
        ensures
            r@ == spec_opt_ts_input(self.completed_at, off_secs as int),
    {
        render_opt_ts_input(&self.completed_at, off_secs)
    }

    /// The deadline as display text, or the empty string when unset.
    pub fn deadline_to_string(&self, off_secs: i32) -> (r: String)
        ensures
            r@ == spec_opt_ts_display(self.deadline, off_secs as int),
    {
        render_opt_ts_display(&self.deadline, off_secs)
    }

    /// The completion time as display text, or the empty string when unset.
    pub fn completed_at_to_string(&self, off_secs: i32) -> (r: String)
        ensures
            r@ == spec_opt_ts_display(self.completed_at, off_secs as int),
    {
        render_opt_ts_display(&self.completed_at, off_secs)
    }

    /// Reads a `datetime-local` form value as epoch seconds at the given
    /// UTC offset.
    pub fn dtl_from_input(s: &str, off_secs: i32) -> (r: Option<i64>)
        ensures
            r == dtl_input_parse(s@, off_secs as int),
    {
        timefmt::parse_dtl_input(s, off_secs)
    }

    /// The part as a wire record, ids and timestamps in canonical decimal;
    /// whenever its timestamps are in chrono's range, `spec_parse_part`
    /// reads the record back as this very part.
    pub fn to_raw(&self) -> (r: RawPart)
        ensures
            r.id@ == spec_i64_string(self.id as int),
            r.name == self.name,
            r.description == self.description,
            match (r.deadline, self.deadline) {
                (None, None) => true,
                (Some(t), Some(v)) => t@ == spec_i64_string(v as int),
                _ => false,
            },
            match (r.completed_at, self.completed_at) {
                (None, None) => true,
                (Some(t), Some(v)) => t@ == spec_i64_string(v as int),
                _ => false,
            },
            match (r.parent_id, self.parent_id) {
                (None, None) => true,
                (Some(t), Some(v)) => t@ == spec_i64_string(v as int),
                _ => false,
            },
            ((self.deadline matches Some(t) ==> ts_representable(t as int)) && (
            self.completed_at matches Some(t) ==> ts_representable(t as int))) ==> spec_parse_part(
                r,
            ) == Some(*self),
    {
        let deadline = match &self.deadline {
            Some(t) => Some(i64_to_string(*t)),
            None => None,
        };
        let completed_at = match &self.completed_at {
            Some(t) => Some(i64_to_string(*t)),
            None => None,
        };
        let parent_id = match &self.parent_id {
            Some(p) => Some(i64_to_string(*p)),
            None => None,
        };
        let r = RawPart {
            id: i64_to_string(self.id),
            name: self.name.clone(),
            description: match &self.description {
                Some(d) => Some(d.clone()),
                None => None,
            },
            deadline,
            completed_at,
            parent_id,
        };
        r
    }
}

impl Default for Part {
    /// The blank part used to assemble a new record before it is sent.
    fn default() -> (r: Self)
        ensures
            r.id == 0,
            r.name@ == Seq::<char>::empty(),
            r.description is None,
            r.deadline is None,
            r.completed_at is None,
            r.parent_id is None,
    {
        Part {
            id: 0,
            name: String::new(),
            description: None,
            deadline: None,
            completed_at: None,
            parent_id: None,
        }
    }
}

} // verus!
