//! Paths as sequences of segments, and the segments of a registered path.

use vstd::prelude::*;
use vstd::string::*;
use crate::http::text::{same_text, split, split_on, views};

verus! {

/// One step of a registered path.
pub enum Segment {
    /// Matches the request segment with this very text.
    Literal(Seq<char>),
    /// Written `?name`: matches any one request segment and binds it to
    /// `name`.
    Variable(Seq<char>),
    /// Written `*`: matches the rest of the request path.
    Wildcard,
}

/// One step of a registered path, as the route tree stores it.
pub enum PathSegment {
    Literal(String),
    Variable(String),
    Wildcard,
}

impl View for PathSegment {
    type V = Segment;

    open spec fn view(&self) -> Segment {
        match self {
            PathSegment::Literal(text) => Segment::Literal(text@),
            PathSegment::Variable(name) => Segment::Variable(name@),
            PathSegment::Wildcard => Segment::Wildcard,
        }
    }
}

/// The views of a sequence of stored segments.
pub open spec fn segment_views(segments: Seq<PathSegment>) -> Seq<Segment> {
    Seq::new(segments.len(), |i: int| segments[i]@)
}

/// The path without one leading `/`.
pub open spec fn without_leading_slash(path: Seq<char>) -> Seq<char> {
    if path.len() > 0 && path[0] == '/' {
        path.drop_first()
    } else {
        path
    }
}

/// The segments of a path: one leading `/` is dropped and the rest is
/// split at every `/`. The root path (`/` or the empty path) has no
/// segments.
pub open spec fn path_segments(path: Seq<char>) -> Seq<Seq<char>> {
    let rest = without_leading_slash(path);
    if rest.len() == 0 {
        Seq::empty()
    } else {
        split_on(rest, '/')
    }
}

/// What a segment of a registered path stands for.
pub open spec fn segment_of(text: Seq<char>) -> Segment {
    if text == "*"@ {
        Segment::Wildcard
    } else if text.len() > 0 && text[0] == '?' {
        Segment::Variable(text.drop_first())
    } else {
        Segment::Literal(text)
    }
}

/// The pattern that a registered path stands for.
pub open spec fn pattern_of(path: Seq<char>) -> Seq<Segment> {
    let segments = path_segments(path);
    Seq::new(segments.len(), |i: int| segment_of(segments[i]))
}

/// Whether every segment of the path is literal: none is `*`, none begins
/// with `?`.
pub open spec fn is_literal_path(path: Seq<char>) -> bool {
    forall|i: int|
        0 <= i < path_segments(path).len() ==> segment_of(#[trigger] path_segments(path)[i]) is Literal
}

/// A wildcard stands only at the end of a pattern.
pub open spec fn wildcard_is_last(pattern: Seq<Segment>) -> bool {
    forall|i: int| 0 <= i < pattern.len() && #[trigger] pattern[i] is Wildcard ==> i == pattern.len() - 1
}

/// The segments of `path`.
pub fn segments(path: &str) -> (parts: Vec<String>)
    ensures
        views(parts@) == path_segments(path@),
{
    let n = path.unicode_len();
    if n == 0 {
        let parts: Vec<String> = Vec::new();
        assert(views(parts@) =~= path_segments(path@));
        return parts;
    }
    if path.get_char(0) == '/' {
        if n == 1 {
            let parts: Vec<String> = Vec::new();
            assert(views(parts@) =~= path_segments(path@));
            return parts;
        }
        let rest = path.substring_char(1, n);
        assert(rest@ =~= path@.drop_first());
        split(rest, '/')
    } else {
        split(path, '/')
    }
}

/// What the segment written as `text` stands for.
pub fn segment(text: &str) -> (step: PathSegment)
    ensures
        step@ == segment_of(text@),
{
    if same_text(text, "*") {
        return PathSegment::Wildcard;
    }
    let n = text.unicode_len();
    if n > 0 && text.get_char(0) == '?' {
        let name = text.substring_char(1, n);
        assert(name@ =~= text@.drop_first());
        PathSegment::Variable(name.to_owned())
    } else {
        PathSegment::Literal(text.to_owned())
    }
}

/// The pattern that the registered path `path` stands for.
pub fn pattern(path: &str) -> (steps: Vec<PathSegment>)
    ensures
        segment_views(steps@) == pattern_of(path@),
{
    let parts = segments(path);
    let mut steps: Vec<PathSegment> = Vec::new();
    let mut i: usize = 0;
    while i < parts.len()
        invariant
            i <= parts@.len(),
            steps@.len() == i,
            views(parts@) == path_segments(path@),
            forall|j: int| 0 <= j < i ==> (#[trigger] steps@[j])@ == segment_of(parts@[j]@),
        decreases parts@.len() - i,
    {
        steps.push(segment(parts[i].as_str()));
        i = i + 1;
    }
    proof {
        assert forall|j: int| 0 <= j < steps@.len() implies segment_views(steps@)[j] == pattern_of(
            path@,
        )[j] by {
            assert(views(parts@)[j] == parts@[j]@);
        }
        assert(segment_views(steps@) =~= pattern_of(path@));
    }
    steps
}

/// Whether a wildcard stands only at the end of `steps`.
pub fn has_wildcard_last(steps: &Vec<PathSegment>) -> (ok: bool)
    ensures
        ok == wildcard_is_last(segment_views(steps@)),
{
    let mut i: usize = 0;
    while i < steps.len()
        invariant
            i <= steps@.len(),
            forall|j: int|
                0 <= j < i && #[trigger] segment_views(steps@)[j] is Wildcard ==> j == steps@.len() - 1,
        decreases steps@.len() - i,
    {
        if i + 1 < steps.len() {
            match &steps[i] {
                PathSegment::Wildcard => {
                    assert(segment_views(steps@)[i as int] is Wildcard);
                    return false;
                },
                _ => {},
            }
        }
        i = i + 1;
    }
    true
}

} // verus!
