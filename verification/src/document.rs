//! Document-level metadata, read off what the document states of itself.

use vstd::prelude::*;

use crate::fmt::{push_str, string_from_chars};
use crate::model::{DocDate, DocMetadata};

verus! {

/// A date as the document states it: each part only if given.
pub struct DateParts {
    pub year: Option<i32>,
    pub month: Option<u8>,
    pub day: Option<u8>,
}

/// What a document states of itself.
pub struct DocumentInfo {
    pub title: Option<String>,
    pub authors: Vec<String>,
    /// The date, if one is set (not automatic, and not `none`).
    pub date: Option<DateParts>,
    pub keywords: Vec<String>,
    pub description: Option<String>,
    /// The locale as an RFC 3066 tag, if one is set.
    pub locale: Option<String>,
}

/// A stated date as a document date: a missing year is 1970.
pub open spec fn doc_date_of(dt: DateParts) -> DocDate {
    DocDate {
        year: match dt.year {
            Some(y) => y,
            None => 1970i32,
        },
        month: match dt.month {
            Some(m) => Some(m as i32),
            None => None::<i32>,
        },
        day: match dt.day {
            Some(d) => Some(d as i32),
            None => None::<i32>,
        },
    }
}

/// A stated date as a document date: a missing year is 1970.
pub fn datetime_to_doc_date(dt: &DateParts) -> (r: DocDate)
    ensures
        r == doc_date_of(*dt),
{
    DocDate {
        year: match dt.year {
            Some(y) => y,
            None => 1970,
        },
        month: match dt.month {
            Some(m) => Some(m as i32),
            None => None,
        },
        day: match dt.day {
            Some(d) => Some(d as i32),
            None => None,
        },
    }
}

/// The date of a document, if it states one.
pub open spec fn info_date(info: DocumentInfo) -> Option<DocDate> {
    match info.date {
        Some(dt) => Some(doc_date_of(dt)),
        None => None,
    }
}

/// The date of a document, if it states one.
pub fn doc_date_from_info(info: &DocumentInfo) -> (r: Option<DocDate>)
    ensures
        r == info_date(*info),
{
    match &info.date {
        Some(dt) => Some(datetime_to_doc_date(dt)),
        None => None,
    }
}

/// The language of a document, if it sets a locale.
pub fn doc_lang_from_info(info: &DocumentInfo) -> (r: Option<String>)
    ensures
        r == info.locale,
{
    match &info.locale {
        Some(l) => Some(l.clone()),
        None => None,
    }
}

fn copy_strings(v: &Vec<String>) -> (r: Vec<String>)
    ensures
        r@ == v@,
{
    let mut out: Vec<String> = Vec::new();
    let mut i: usize = 0;
    while i < v.len()
        invariant
            0 <= i <= v@.len(),
            out@ == v@.take(i as int),
        decreases v@.len() - i,
    {
        out.push(v[i].clone());
        i += 1;
        assert(v@.take(i as int) == v@.take(i - 1).push(v@[i - 1]));
    }
    assert(v@.take(i as int) == v@);
    out
}

/// The document-level metadata of a CND: the document's title (`Untitled`
/// when it has none), authors, date, keywords, description and language.
pub fn doc_metadata_from_info(info: &DocumentInfo) -> (r: DocMetadata)
    ensures
        r.title@ == (match info.title {
            Some(t) => t@,
            None => "Untitled"@,
        }),
        r.authors@ == info.authors@,
        r.date == info_date(*info),
        r.keywords@ == info.keywords@,
        r.description == info.description,
        r.lang == info.locale,
{
    let title = match &info.title {
        Some(t) => t.clone(),
        None => {
            let mut out: Vec<char> = Vec::new();
            push_str(&mut out, "Untitled");
            string_from_chars(&out)
        },
    };
    DocMetadata {
        title,
        authors: copy_strings(&info.authors),
        date: doc_date_from_info(info),
        keywords: copy_strings(&info.keywords),
        description: match &info.description {
            Some(d) => Some(d.clone()),
            None => None,
        },
        lang: doc_lang_from_info(info),
    }
}

} // verus!
