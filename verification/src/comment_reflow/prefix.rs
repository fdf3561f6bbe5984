//! The markers that open a line comment.

use vstd::prelude::*;

use crate::text::{chars_of, starts_with};

verus! {

/// Which kind of line comment a line is.
#[derive(Clone, Copy, Debug, PartialEq, Eq, Structural)]
pub enum Prefix {
    /// `//!`, documentation of the enclosing item.
    InnerDoc,
    /// `///`, documentation of the following item.
    OuterDoc,
    /// `//`, a comment that is not documentation.
    Normal,
}

impl Prefix {
    /// The characters of the marker.
    pub open spec fn marker_chars(self) -> Seq<char> {
        match self {
            Prefix::InnerDoc => seq!['/', '/', '!'],
            Prefix::OuterDoc => seq!['/', '/', '/'],
            Prefix::Normal => seq!['/', '/'],
        }
    }

    /// The kind of `comment` and the text behind its marker. A comment with four slashes is left
    /// alone, and `//` counts only where normal comments are asked for.
    pub open spec fn parsed(comment: Seq<char>, include_normal_comments: bool) -> Option<
        (Prefix, Seq<char>),
    > {
        if Prefix::InnerDoc.marker_chars().is_prefix_of(comment) {
            Some((Prefix::InnerDoc, comment.skip(3)))
        } else if seq!['/', '/', '/', '/'].is_prefix_of(comment) {
            None
        } else if Prefix::OuterDoc.marker_chars().is_prefix_of(comment) {
            Some((Prefix::OuterDoc, comment.skip(3)))
        } else if include_normal_comments && Prefix::Normal.marker_chars().is_prefix_of(comment) {
            Some((Prefix::Normal, comment.skip(2)))
        } else {
            None
        }
    }

    /// Reads the marker of `comment` and gives the text behind it.
    pub fn parse(comment: &str, include_normal_comments: bool) -> (r: Option<(Prefix, &str)>)
        ensures
            match r {
                Some((prefix, rest)) => Prefix::parsed(comment@, include_normal_comments) == Some(
                    (prefix, rest@),
                ),
                None => Prefix::parsed(comment@, include_normal_comments) is None,
            },
    {
        let chars = chars_of(comment);
        proof {
            reveal_strlit("//!");
            reveal_strlit("////");
            reveal_strlit("///");
            reveal_strlit("//");
            assert("//!"@ =~= Prefix::InnerDoc.marker_chars());
            assert("////"@ =~= seq!['/', '/', '/', '/']);
            assert("///"@ =~= Prefix::OuterDoc.marker_chars());
            assert("//"@ =~= Prefix::Normal.marker_chars());
            assert(comment@.len() >= 3 ==> comment@.subrange(3, comment@.len() as int)
                =~= comment@.skip(3));
            assert(comment@.len() >= 2 ==> comment@.subrange(2, comment@.len() as int)
                =~= comment@.skip(2));
        }
        if starts_with(&chars, "//!") {
            return Some((Prefix::InnerDoc, comment.substring_char(3, chars.len())));
        }
        if starts_with(&chars, "////") {
            return None;
        }
        if starts_with(&chars, "///") {
            return Some((Prefix::OuterDoc, comment.substring_char(3, chars.len())));
        }
        if include_normal_comments && starts_with(&chars, "//") {
            return Some((Prefix::Normal, comment.substring_char(2, chars.len())));
        }
        None
    }

    /// The marker as it is written.
    pub fn marker(self) -> (r: &'static str)
        ensures
            r@ == self.marker_chars(),
    {
        proof {
            reveal_strlit("//!");
            reveal_strlit("///");
            reveal_strlit("//");
            assert("//!"@ =~= Prefix::InnerDoc.marker_chars());
            assert("///"@ =~= Prefix::OuterDoc.marker_chars());
            assert("//"@ =~= Prefix::Normal.marker_chars());
        }
        match self {
            Prefix::InnerDoc => "//!",
            Prefix::OuterDoc => "///",
            Prefix::Normal => "//",
        }
    }
}

/// The marker of a comment decides what it is, whatever stands behind: `//!` and `///` open
/// documentation, four slashes open nothing, and `//` opens a comment that counts exactly where
/// normal comments are asked for. What is taken is what stands behind the marker.
pub proof fn lemma_markers_decide(rest: Seq<char>, include_normal_comments: bool)
    ensures
        Prefix::parsed(seq!['/', '/', '!'] + rest, include_normal_comments) == Some(
            (Prefix::InnerDoc, rest),
        ),
        rest.len() > 0 && rest[0] == '/' ==> Prefix::parsed(
            seq!['/', '/', '/'] + rest,
            include_normal_comments,
        ) is None,
        !(rest.len() > 0 && rest[0] == '/') ==> Prefix::parsed(
            seq!['/', '/', '/'] + rest,
            include_normal_comments,
        ) == Some((Prefix::OuterDoc, rest)),
        !(rest.len() > 0 && (rest[0] == '/' || rest[0] == '!')) ==> Prefix::parsed(
            seq!['/', '/'] + rest,
            include_normal_comments,
        ) == if include_normal_comments {
            Some((Prefix::Normal, rest))
        } else {
            None
        },
        !(rest.len() > 1 && rest[0] == '/' && rest[1] == '/') ==> Prefix::parsed(
            rest,
            include_normal_comments,
        ) is None,
        Prefix::InnerDoc.marker_chars() == seq!['/', '/', '!'],
        Prefix::OuterDoc.marker_chars() == seq!['/', '/', '/'],
        Prefix::Normal.marker_chars() == seq!['/', '/'],
{
    let inner = seq!['/', '/', '!'] + rest;
    let outer = seq!['/', '/', '/'] + rest;
    let plain = seq!['/', '/'] + rest;
    assert(inner.subrange(0, 3) =~= seq!['/', '/', '!']);
    assert(inner.skip(3) =~= rest);
    assert(outer.subrange(0, 3) =~= seq!['/', '/', '/']);
    assert(outer.skip(3) =~= rest);
    assert(plain.subrange(0, 2) =~= seq!['/', '/']);
    assert(plain.skip(2) =~= rest);
    assert(outer[2] == '/');
    assert(!seq!['/', '/', '!'].is_prefix_of(outer)) by {
        assert(outer.subrange(0, 3)[2] == '/');
    }
    if rest.len() > 0 && rest[0] == '/' {
        assert(outer.subrange(0, 4) =~= seq!['/', '/', '/', '/']);
    } else if seq!['/', '/', '/', '/'].is_prefix_of(outer) {
        assert(outer.subrange(0, 4)[3] == '/');
        assert(outer[3] == rest[0]);
    }
    if !(rest.len() > 0 && (rest[0] == '/' || rest[0] == '!')) {
        if seq!['/', '/', '!'].is_prefix_of(plain) {
            assert(plain.subrange(0, 3)[2] == '!');
            assert(plain[2] == rest[0]);
        }
        if seq!['/', '/', '/'].is_prefix_of(plain) {
            assert(plain.subrange(0, 3)[2] == '/');
            assert(plain[2] == rest[0]);
        }
        if seq!['/', '/', '/', '/'].is_prefix_of(plain) {
            assert(plain.subrange(0, 4)[2] == '/');
            assert(plain[2] == rest[0]);
        }
    }
    if !(rest.len() > 1 && rest[0] == '/' && rest[1] == '/') {
        if seq!['/', '/', '!'].is_prefix_of(rest) {
            assert(rest.subrange(0, 3)[0] == '/' && rest.subrange(0, 3)[1] == '/');
        }
        if seq!['/', '/', '/'].is_prefix_of(rest) {
            assert(rest.subrange(0, 3)[0] == '/' && rest.subrange(0, 3)[1] == '/');
        }
        if seq!['/', '/', '/', '/'].is_prefix_of(rest) {
            assert(rest.subrange(0, 4)[0] == '/' && rest.subrange(0, 4)[1] == '/');
        }
        if seq!['/', '/'].is_prefix_of(rest) {
            assert(rest.subrange(0, 2)[0] == '/' && rest.subrange(0, 2)[1] == '/');
        }
    }
}

} // verus!
