//! What the window watcher reports about the active window, and the
//! escaping used when handing it to the classifier subprocess as one
//! tab-separated line.

use vstd::prelude::*;

use crate::ledger::{decimal_digits, joined_with_tabs, push_decimal};

verus! {

/// Metadata for the current active window.
#[derive(Debug, PartialEq, Eq)]
pub struct ActiveWindowMetadata {
    /// Window id in the display server.
    pub id: u32,
    /// Title bar text. Absent for some windows (like the root window).
    pub title: Option<String>,
    /// Usually the program name. Absent for some windows (like the root
    /// window).
    pub class: Option<String>,
}

/// The escaped form of a text: tabs and newlines become spaces, so the
/// text fits in one tab-separated line.
pub open spec fn escaped(s: Seq<u8>) -> Seq<u8> {
    Seq::new(s.len(), |i: int| if s[i] == 9 || s[i] == 10 { 32u8 } else { s[i] })
}

/// Escapes an optional text for the classifier's line protocol: an absent
/// text becomes the empty field, a present one has every tab and newline
/// replaced by a space.
pub fn escape_opt_str(s: Option<&Vec<u8>>) -> (r: Vec<u8>)
    ensures
        s matches Some(v) ==> r@ == escaped(v@),
        s is None ==> r@ == Seq::<u8>::empty(),
{
    match s {
        None => Vec::new(),
        Some(v) => {
            let mut out: Vec<u8> = Vec::new();
            let mut i: usize = 0;
            while i < v.len()
                invariant
                    i <= v@.len(),
                    out@ == escaped(v@).take(i as int),
                decreases v@.len() - i,
            {
                let b = v[i];
                if b == 9 || b == 10 {
                    out.push(32);
                } else {
                    out.push(b);
                }
                proof {
                    assert(out@ =~= escaped(v@).take(i + 1));
                }
                i += 1;
            }
            proof {
                assert(escaped(v@).take(v@.len() as int) =~= escaped(v@));
            }
            out
        }
    }
}

/// The escaped form of an optional text: absent means the empty field.
pub open spec fn escaped_opt(s: Option<Seq<u8>>) -> Seq<u8> {
    match s {
        Some(v) => escaped(v),
        None => Seq::empty(),
    }
}

/// Builds the classification request for one window: the window id in
/// decimal, the escaped title and the escaped class, tab-separated and
/// newline-terminated, as the classifier subprocess reads it.
pub fn classifier_line(id: u32, title: Option<&Vec<u8>>, class: Option<&Vec<u8>>) -> (r: Vec<u8>)
    ensures
        r@ == joined_with_tabs(
            seq![
                decimal_digits(id as int),
                escaped_opt(match title {
                    Some(t) => Some(t@),
                    None => None,
                }),
                escaped_opt(match class {
                    Some(c) => Some(c@),
                    None => None,
                }),
            ],
        ).push(10u8),
{
    let ghost fields = seq![
        decimal_digits(id as int),
        escaped_opt(match title {
            Some(t) => Some(t@),
            None => None,
        }),
        escaped_opt(match class {
            Some(c) => Some(c@),
            None => None,
        }),
    ];
    let mut out: Vec<u8> = Vec::new();
    push_decimal(id as u64, &mut out);
    out.push(9);
    let mut t = escape_opt_str(title);
    out.append(&mut t);
    out.push(9);
    let mut c = escape_opt_str(class);
    out.append(&mut c);
    proof {
        assert(fields.take(1) =~= seq![decimal_digits(id as int)]);
        assert(joined_with_tabs(fields.take(1)) == decimal_digits(id as int));
        assert(fields.take(2).drop_last() =~= fields.take(1));
        assert(fields.take(2).last() == fields[1]);
        assert(joined_with_tabs(fields.take(2)) == joined_with_tabs(fields.take(1)).push(9u8)
            + fields[1]);
        assert(fields.take(3).drop_last() =~= fields.take(2));
        assert(fields.take(3).last() == fields[2]);
        assert(joined_with_tabs(fields.take(3)) == joined_with_tabs(fields.take(2)).push(9u8)
            + fields[2]);
        assert(fields.take(3) =~= fields);
        assert(out@ =~= joined_with_tabs(fields.take(2)).push(9u8) + fields[2]);
        assert(out@ =~= joined_with_tabs(fields));
    }
    out.push(10);
    out
}

} // verus!
