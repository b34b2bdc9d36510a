//! Pin records and the form payload they are built from.

use vstd::prelude::*;
use crate::text::{split_whitespace, split_words, views};

verus! {

/// A bookmark: one or more URLs and their metadata.
#[derive(Debug, Clone)]
pub struct Pin {
    pub id: u64,
    pub title: String,
    pub urls: Vec<String>,
    pub description: String,
    pub tags: Vec<String>,
    pub starred: bool,
    pub unread: bool,
}

/// The fields of a pin-creation form, each of them optional. `tags` is a
/// whitespace-separated list; `starred` and `unread` are set by the value "on".
#[derive(Debug, Clone)]
pub struct PinInfo {
    pub title: Option<String>,
    pub url: Option<String>,
    pub description: Option<String>,
    pub tags: Option<String>,
    pub starred: Option<String>,
    pub unread: Option<String>,
}

/// The text of an optional field; empty when absent.
pub open spec fn field_text(o: Option<String>) -> Seq<char> {
    match o {
        Some(s) => s@,
        None => Seq::empty(),
    }
}

/// Whether an optional checkbox field is set: present with the value "on".
pub open spec fn field_on(o: Option<String>) -> bool {
    match o {
        Some(s) => s@ == seq!['o', 'n'],
        None => false,
    }
}

/// The URLs of a pin built from an optional URL field.
pub open spec fn field_urls(o: Option<String>) -> Seq<Seq<char>> {
    match o {
        Some(s) => seq![s@],
        None => Seq::empty(),
    }
}

impl Pin {
    /// An empty pin: no URL, empty texts, flags unset, id 0.
    pub fn new() -> (r: Pin)
        ensures
            r.id == 0,
            r.title@.len() == 0,
            r.urls@.len() == 0,
            r.description@.len() == 0,
            r.tags@.len() == 0,
            !r.starred,
            !r.unread,
    {
        Pin {
            id: 0,
            title: String::new(),
            urls: Vec::new(),
            description: String::new(),
            tags: Vec::new(),
            starred: false,
            unread: false,
        }
    }

    /// The pin that a creation form describes: absent fields take the
    /// defaults, tags are the whitespace-separated words of the tag field.
    pub fn from_info(info: PinInfo) -> (r: Pin)
        ensures
            r.id == 0,
            r.title@ == field_text(info.title),
            views(r.urls@) == field_urls(info.url),
            r.description@ == field_text(info.description),
            views(r.tags@) == split_words(field_text(info.tags)),
            r.starred == field_on(info.starred),
            r.unread == field_on(info.unread),
    {
        let mut pin = Pin::new();
        if let Some(title) = info.title {
            pin.title = title;
        }
        if let Some(url) = info.url {
            let ghost u = url@;
            pin.urls = vec![url];
            assert(views(pin.urls@) =~= seq![u]);
        } else {
            assert(views(pin.urls@) =~= Seq::<Seq<char>>::empty());
        }
        if let Some(description) = info.description {
            pin.description = description;
        }
        match info.tags {
            Some(tags) => {
                pin.tags = split_whitespace(tags.as_str());
            },
            None => {
                let empty = String::new();
                pin.tags = split_whitespace(empty.as_str());
                assert(split_words(Seq::<char>::empty()) =~= Seq::<Seq<char>>::empty());
            },
        }
        pin.starred = is_on(&info.starred);
        pin.unread = is_on(&info.unread);
        pin
    }
}

fn is_on(o: &Option<String>) -> (r: bool)
    ensures
        r == field_on(*o),
{
    match o {
        Some(s) => {
            let lit = "on";
            let on = lit.to_owned();
            proof {
                reveal_strlit("on");
                assert(lit@ =~= seq!['o', 'n']);
            }
            *s == on
        },
        None => false,
    }
}

} // verus!
