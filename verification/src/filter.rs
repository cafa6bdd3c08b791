//! The filtered query surface: wildcard patterns with `*` and `?`, an
//! optional case-insensitive mode over ASCII, and filtered listing over
//! columns and attribute paths.

use vstd::prelude::*;

use crate::event::{events_model, EventModel, FlatS3EventMessage, FlatS3EventMessages};
use crate::json::{ptr_get, JsonModel};
use crate::patch::parse_pointer;
use crate::table::S3ObjectTable;
use crate::text::opt_view;

verus! {

/// A character folded to ASCII lowercase.
pub open spec fn fold_char(c: char, case_sensitive: bool) -> char {
    if !case_sensitive && 'A' <= c && c <= 'Z' {
        (((c as u8) + 32) as char)
    } else {
        c
    }
}

/// Wildcard matching: `*` matches any run of characters, `?` any single
/// one, anything else itself, folded to lowercase when matching is
/// case-insensitive.
pub open spec fn glob_match(p: Seq<char>, t: Seq<char>, case_sensitive: bool) -> bool
    decreases p.len() + t.len(),
{
    if p.len() == 0 {
        t.len() == 0
    } else if p[0] == '*' {
        glob_match(p.skip(1), t, case_sensitive) || (t.len() > 0 && glob_match(
            p,
            t.skip(1),
            case_sensitive,
        ))
    } else {
        t.len() > 0 && (p[0] == '?' || fold_char(p[0], case_sensitive) == fold_char(
            t[0],
            case_sensitive,
        )) && glob_match(p.skip(1), t.skip(1), case_sensitive)
    }
}

/// Fold one character to ASCII lowercase.
fn fold_char_exec(c: char, case_sensitive: bool) -> (r: char)
    ensures
        r == fold_char(c, case_sensitive),
{
    if !case_sensitive && c >= 'A' && c <= 'Z' {
        ((c as u8) + 32) as char
    } else {
        c
    }
}

/// Match a wildcard pattern against text from the given positions on.
#[verifier::loop_isolation(false)]
fn glob_match_at(p: &str, pi: usize, t: &str, ti: usize, case_sensitive: bool) -> (r: bool)
    requires
        pi <= p@.len(),
        ti <= t@.len(),
    ensures
        r == glob_match(p@.skip(pi as int), t@.skip(ti as int), case_sensitive),
    decreases p@.len() - pi, t@.len() - ti,
{
    let p_len = p.unicode_len();
    let t_len = t.unicode_len();
    let ghost ps = p@.skip(pi as int);
    let ghost ts = t@.skip(ti as int);
    proof {
        assert(ps.len() == p@.len() - pi);
        assert(ts.len() == t@.len() - ti);
        if ps.len() > 0 {
            assert(ps[0] == p@[pi as int]);
            assert(ps.skip(1) =~= p@.skip(pi + 1));
        }
        if ts.len() > 0 {
            assert(ts[0] == t@[ti as int]);
            assert(ts.skip(1) =~= t@.skip(ti + 1));
        }
        reveal_strlit("*");
        reveal_strlit("?");
    }
    if pi == p_len {
        return ti == t_len;
    }
    let pc = p.get_char(pi);
    if pc == '*' {
        if glob_match_at(p, pi + 1, t, ti, case_sensitive) {
            return true;
        }
        if ti < t_len {
            return glob_match_at(p, pi, t, ti + 1, case_sensitive);
        }
        false
    } else {
        if ti == t_len {
            return false;
        }
        let tc = t.get_char(ti);
        if pc == '?' || fold_char_exec(pc, case_sensitive) == fold_char_exec(tc, case_sensitive) {
            glob_match_at(p, pi + 1, t, ti + 1, case_sensitive)
        } else {
            false
        }
    }
}

/// Match a wildcard pattern against a text.
pub fn wildcard_match(pattern: &str, text: &str, case_sensitive: bool) -> (r: bool)
    ensures
        r == glob_match(pattern@, text@, case_sensitive),
{
    proof {
        assert(pattern@.skip(0) =~= pattern@);
        assert(text@.skip(0) =~= text@);
    }
    glob_match_at(pattern, 0, text, 0, case_sensitive)
}

/// The text form a filter compares an attribute value against: the
/// characters of a string or number value; other shapes match nothing.
pub open spec fn attr_text(v: JsonModel) -> Option<Seq<char>> {
    match v {
        JsonModel::Text(s) => Option::Some(s),
        JsonModel::Number(s) => Option::Some(s),
        _ => Option::None,
    }
}

/// Whether a row's attributes carry, at the pointer path, a textual value
/// matching the pattern.
pub open spec fn attr_matches(
    em: EventModel,
    path: Seq<char>,
    pattern: Seq<char>,
    case_sensitive: bool,
) -> bool {
    match em.attributes {
        Option::None => false,
        Option::Some(doc) => match parse_pointer(path) {
            Option::None => false,
            Option::Some(p) => match ptr_get(doc, p) {
                Option::None => false,
                Option::Some(v) => match attr_text(v) {
                    Option::None => false,
                    Option::Some(s) => glob_match(pattern, s, case_sensitive),
                },
            },
        },
    }
}

/// Filter predicates over rows: wildcard patterns over columns, and
/// attribute path matchers.
pub struct S3ObjectsFilter {
    /// A pattern over the bucket.
    pub bucket: Option<String>,
    /// A pattern over the key.
    pub key: Option<String>,
    /// A pattern over the version id.
    pub version_id: Option<String>,
    /// A pattern over the event time text.
    pub event_time: Option<String>,
    /// Pointer paths into the attributes, each with a pattern.
    pub attributes: Vec<(String, String)>,
}

/// Whether an optional text column matches an optional pattern: no pattern
/// passes; a pattern against an absent value fails.
pub open spec fn col_matches(
    value: Option<Seq<char>>,
    pattern: Option<Seq<char>>,
    case_sensitive: bool,
) -> bool {
    match pattern {
        Option::None => true,
        Option::Some(p) => match value {
            Option::None => false,
            Option::Some(v) => glob_match(p, v, case_sensitive),
        },
    }
}

/// Whether a row passes the whole filter.
pub open spec fn row_matches(
    em: EventModel,
    f: &S3ObjectsFilter,
    case_sensitive: bool,
    current_state: Option<bool>,
) -> bool {
    &&& (match current_state {
        Option::None => true,
        Option::Some(c) => em.is_current_state == c,
    })
    &&& col_matches(Option::Some(em.bucket), opt_view(f.bucket), case_sensitive)
    &&& col_matches(Option::Some(em.key), opt_view(f.key), case_sensitive)
    &&& col_matches(Option::Some(em.version_id), opt_view(f.version_id), case_sensitive)
    &&& col_matches(em.event_time, opt_view(f.event_time), case_sensitive)
    &&& (forall|j: int|
        0 <= j < f.attributes@.len() ==> attr_matches(
            em,
            (#[trigger] f.attributes@[j]).0@,
            f.attributes@[j].1@,
            case_sensitive,
        ))
}

/// The rows passing the filter, in table order.
pub open spec fn spec_filter_rows(
    t: Seq<EventModel>,
    f: &S3ObjectsFilter,
    case_sensitive: bool,
    current_state: Option<bool>,
) -> Seq<EventModel>
    decreases t.len(),
{
    if t.len() == 0 {
        Seq::empty()
    } else {
        let rest = spec_filter_rows(t.drop_last(), f, case_sensitive, current_state);
        if row_matches(t.last(), f, case_sensitive, current_state) {
            rest.push(t.last())
        } else {
            rest
        }
    }
}

/// Whether one row passes the filter.
#[verifier::loop_isolation(false)]
fn row_matches_exec(
    e: &FlatS3EventMessage,
    f: &S3ObjectsFilter,
    case_sensitive: bool,
    current_state: &Option<bool>,
) -> (r: bool)
    ensures
        r == row_matches(e@, f, case_sensitive, *current_state),
{
    match current_state {
        Option::Some(c) => {
            if e.is_current_state != *c {
                return false;
            }
        },
        Option::None => {},
    }
    match &f.bucket {
        Option::Some(p) => {
            if !wildcard_match(p.as_str(), e.bucket.as_str(), case_sensitive) {
                return false;
            }
        },
        Option::None => {},
    }
    match &f.key {
        Option::Some(p) => {
            if !wildcard_match(p.as_str(), e.key.as_str(), case_sensitive) {
                return false;
            }
        },
        Option::None => {},
    }
    match &f.version_id {
        Option::Some(p) => {
            if !wildcard_match(p.as_str(), e.version_id.as_str(), case_sensitive) {
                return false;
            }
        },
        Option::None => {},
    }
    match &f.event_time {
        Option::Some(p) => {
            match &e.event_time {
                Option::Some(v) => {
                    if !wildcard_match(p.as_str(), v.as_str(), case_sensitive) {
                        return false;
                    }
                },
                Option::None => {
                    return false;
                },
            }
        },
        Option::None => {},
    }
    let mut j: usize = 0;
    while j < f.attributes.len()
        invariant
            j <= f.attributes@.len(),
            forall|jj: int|
                0 <= jj < j ==> attr_matches(
                    e@,
                    (#[trigger] f.attributes@[jj]).0@,
                    f.attributes@[jj].1@,
                    case_sensitive,
                ),
        decreases f.attributes@.len() - j,
    {
        let pair = &f.attributes[j];
        let hit = match &e.attributes {
            Option::None => false,
            Option::Some(doc) => match crate::patch::parse_pointer_exec(pair.0.as_str()) {
                Option::None => false,
                Option::Some(p) => {
                    proof {
                        assert(crate::json::segs_model(p@).skip(0) =~= crate::json::segs_model(
                            p@,
                        ));
                    }
                    match crate::json::ptr_get_exec(doc, &p, 0) {
                        Option::None => false,
                        Option::Some(v) => match v {
                            crate::json::JsonValue::Text(s) => wildcard_match(
                                pair.1.as_str(),
                                s.as_str(),
                                case_sensitive,
                            ),
                            crate::json::JsonValue::Number(s) => wildcard_match(
                                pair.1.as_str(),
                                s.as_str(),
                                case_sensitive,
                            ),
                            _ => false,
                        },
                    }
                },
            },
        };
        if !hit {
            return false;
        }
        j = j + 1;
    }
    true
}

impl S3ObjectTable {
    /// The rows passing a filter, with wildcard patterns over columns and
    /// attribute paths, an optional ASCII case-insensitive mode, and an
    /// optional restriction to (non-)current rows, in table order.
    #[verifier::loop_isolation(false)]
    pub fn filter_all(
        &self,
        f: &S3ObjectsFilter,
        case_sensitive: bool,
        current_state: Option<bool>,
    ) -> (r: FlatS3EventMessages)
        ensures
            r@ == spec_filter_rows(self@, f, case_sensitive, current_state),
    {
        let ghost t = self@;
        let mut out: Vec<FlatS3EventMessage> = Vec::new();
        let mut i: usize = 0;
        while i < self.rows.len()
            invariant
                i <= t.len(),
                events_model(out@) == spec_filter_rows(
                    t.subrange(0, i as int),
                    f,
                    case_sensitive,
                    current_state,
                ),
            decreases t.len() - i,
        {
            proof {
                assert(t.subrange(0, i + 1).drop_last() =~= t.subrange(0, i as int));
                assert(t.subrange(0, i + 1).last() == t[i as int]);
            }
            let e = &self.rows[i];
            if row_matches_exec(e, f, case_sensitive, &current_state) {
                let ghost prev = events_model(out@);
                out.push(e.duplicate());
                proof {
                    assert(events_model(out@) =~= prev.push(t[i as int]));
                }
            }
            i = i + 1;
        }
        proof {
            assert(t.subrange(0, t.len() as int) =~= t);
        }
        FlatS3EventMessages(out)
    }
}

} // verus!
