//! The route tree as a table of patterns, and what registration and
//! resolution mean on it.

use vstd::prelude::*;
use crate::http::route_path::{wildcard_is_last, Segment};
use crate::http::{HttpRequest, HttpResponse};

verus! {

/// What a handler does, as plain values: the requests that it can be
/// invoked on, and the responses that it may give to a request.
#[verifier::ext_equal]
pub struct HandlerView {
    pub accepts: spec_fn(HttpRequest) -> bool,
    pub answers: spec_fn(HttpRequest, HttpResponse) -> bool,
}

impl HandlerView {
    /// The handler can be invoked on every request.
    pub open spec fn accepts_all(self) -> bool {
        forall|request: HttpRequest| #[trigger] (self.accepts)(request)
    }
}

/// A match: the handler of the matching route, and the values that the
/// variable segments on the way were bound to.
#[verifier::ext_equal]
pub struct RouteMatch {
    pub handler: HandlerView,
    pub params: Map<Seq<char>, Seq<char>>,
}

/// A route tree as a table: every node of the tree by the pattern that
/// leads to it from the root, with the handler registered there, if any.
/// The root is the node of the empty pattern.
#[verifier::ext_equal]
pub struct RouteTable {
    pub nodes: Map<Seq<Segment>, Option<HandlerView>>,
}

impl RouteTable {
    /// The table of a tree that is only a root without handler.
    pub open spec fn empty() -> RouteTable {
        RouteTable { nodes: Map::empty().insert(Seq::<Segment>::empty(), None) }
    }

    /// Whether the tree has a node at `pattern`.
    pub open spec fn has_node(self, pattern: Seq<Segment>) -> bool {
        self.nodes.contains_key(pattern)
    }

    /// The handler registered at `pattern`, if there is one.
    pub open spec fn handler_at(self, pattern: Seq<Segment>) -> Option<HandlerView> {
        if self.nodes.contains_key(pattern) {
            self.nodes[pattern]
        } else {
            None
        }
    }

    /// The name that the variable child of the node at `at` binds, if the
    /// node has such a child.
    pub open spec fn variable_at(self, at: Seq<Segment>) -> Option<Seq<char>> {
        if exists|name: Seq<char>| self.has_node(at.push(Segment::Variable(name))) {
            Some(choose|name: Seq<char>| self.has_node(at.push(Segment::Variable(name))))
        } else {
            None
        }
    }

    /// Resolution of the request segments `segments` from the node at
    /// `at`, with the bindings `params` made so far. At each node a literal
    /// child for the segment wins over the variable child, and that over the
    /// wildcard child, which takes all the segments that are left. A node
    /// reached at the end matches only if it has a handler.
    pub open spec fn resolve_from(
        self,
        at: Seq<Segment>,
        segments: Seq<Seq<char>>,
        params: Map<Seq<char>, Seq<char>>,
    ) -> Option<RouteMatch>
        decreases segments.len(),
    {
        if segments.len() == 0 {
            match self.handler_at(at) {
                Some(handler) => Some(RouteMatch { handler, params }),
                None => None,
            }
        } else {
            let head = segments[0];
            let rest = segments.drop_first();
            if self.has_node(at.push(Segment::Literal(head))) {
                self.resolve_from(at.push(Segment::Literal(head)), rest, params)
            } else {
                match self.variable_at(at) {
                    Some(name) => self.resolve_from(
                        at.push(Segment::Variable(name)),
                        rest,
                        params.insert(name, head),
                    ),
                    None => match self.handler_at(at.push(Segment::Wildcard)) {
                        Some(handler) => Some(RouteMatch { handler, params }),
                        None => None,
                    },
                }
            }
        }
    }

    /// Resolution of a request path, given by its segments, from the root.
    pub open spec fn resolve(self, segments: Seq<Seq<char>>) -> Option<RouteMatch> {
        self.resolve_from(Seq::empty(), segments, Map::empty())
    }

    /// The table after `handler` is registered at `pattern`: the nodes on
    /// the way to `pattern` are there, the handler stands at its end, and
    /// nothing else has changed.
    pub open spec fn with_route(self, pattern: Seq<Segment>, handler: HandlerView) -> RouteTable {
        RouteTable {
            nodes: Map::new(
                |p: Seq<Segment>| self.has_node(p) || p.is_prefix_of(pattern),
                |p: Seq<Segment>|
                    if p == pattern {
                        Some(handler)
                    } else {
                        self.handler_at(p)
                    },
            ),
        }
    }

    /// No node on the way of `pattern` has a child that is not literal and
    /// differs from the one that `pattern` takes there.
    pub open spec fn conflict_free(self, pattern: Seq<Segment>) -> bool {
        forall|k: int, other: Segment|
            0 <= k < pattern.len() && !(pattern[k] is Literal) && !(other is Literal)
                && #[trigger] self.has_node(pattern.take(k).push(other)) ==> other == pattern[k]
    }

    /// Whether `pattern` can be registered: a wildcard stands only at its
    /// end, and it is free of conflicts with the nodes that are there.
    pub open spec fn admits(self, pattern: Seq<Segment>) -> bool {
        wildcard_is_last(pattern) && self.conflict_free(pattern)
    }

    /// Every handler of the table can be invoked on every request.
    pub open spec fn accepts_all(self) -> bool {
        forall|pattern: Seq<Segment>| #[trigger]
            self.handler_at(pattern) is Some ==> self.handler_at(pattern)->0.accepts_all()
    }

    /// The way that resolution takes from the node at `at` for the request
    /// segments `segments`, as far as it gets.
    pub open spec fn route_from(self, at: Seq<Segment>, segments: Seq<Seq<char>>) -> Seq<Segment>
        decreases segments.len(),
    {
        if segments.len() == 0 {
            Seq::empty()
        } else {
            let head = segments[0];
            let rest = segments.drop_first();
            if self.has_node(at.push(Segment::Literal(head))) {
                seq![Segment::Literal(head)] + self.route_from(at.push(Segment::Literal(head)), rest)
            } else {
                match self.variable_at(at) {
                    Some(name) => seq![Segment::Variable(name)] + self.route_from(
                        at.push(Segment::Variable(name)),
                        rest,
                    ),
                    None => seq![Segment::Wildcard],
                }
            }
        }
    }

    /// What resolution finds is registered and fits: the handler stands at
    /// a pattern that the request segments fit, and the route parameters are
    /// the bindings of that pattern.
    pub proof fn lemma_resolution_fits(
        self,
        at: Seq<Segment>,
        segments: Seq<Seq<char>>,
        params: Map<Seq<char>, Seq<char>>,
    )
        requires
            self.resolve_from(at, segments, params) is Some,
        ensures
            self.handler_at(at + self.route_from(at, segments)) == Some(
                self.resolve_from(at, segments, params)->0.handler,
            ),
            fits(self.route_from(at, segments), segments),
            self.resolve_from(at, segments, params)->0.params == bindings(
                self.route_from(at, segments),
                segments,
                params,
            ),
        decreases segments.len(),
    {
        let route = self.route_from(at, segments);
        if segments.len() == 0 {
            assert(at + route =~= at);
        } else {
            let head = segments[0];
            let rest = segments.drop_first();
            if self.has_node(at.push(Segment::Literal(head))) {
                let next = at.push(Segment::Literal(head));
                self.lemma_resolution_fits(next, rest, params);
                assert(route.drop_first() =~= self.route_from(next, rest));
                assert(at + route =~= next + self.route_from(next, rest));
            } else {
                match self.variable_at(at) {
                    Some(name) => {
                        let next = at.push(Segment::Variable(name));
                        self.lemma_resolution_fits(next, rest, params.insert(name, head));
                        assert(route.drop_first() =~= self.route_from(next, rest));
                        assert(at + route =~= next + self.route_from(next, rest));
                    },
                    None => {
                        assert(at + route =~= at.push(Segment::Wildcard));
                    },
                }
            }
        }
    }

    /// A request that fits no pattern with a handler resolves to nothing.
    pub proof fn lemma_unfitting_request_is_not_found(self, segments: Seq<Seq<char>>)
        requires
            forall|pattern: Seq<Segment>| #[trigger]
                self.handler_at(pattern) is Some ==> !fits(pattern, segments),
        ensures
            self.resolve(segments) is None,
    {
        let root = Seq::<Segment>::empty();
        if self.resolve(segments) is Some {
            self.lemma_resolution_fits(root, segments, Map::empty());
            assert(root + self.route_from(root, segments) =~= self.route_from(root, segments));
        }
    }

    /// The invariant of a table: the root is there, the parent of a node
    /// is a node, a node has at most one child that is not literal, and a
    /// wildcard node has no children.
    pub open spec fn wf(self) -> bool {
        &&& self.has_node(Seq::empty())
        &&& forall|p: Seq<Segment>, s: Segment| #[trigger] self.has_node(p.push(s)) ==> self.has_node(p)
        &&& forall|p: Seq<Segment>, a: Segment, b: Segment|
            #![trigger self.has_node(p.push(a)), self.has_node(p.push(b))]
            self.has_node(p.push(a)) && self.has_node(p.push(b)) && !(a is Literal) && !(b is Literal)
                ==> a == b
        &&& forall|p: Seq<Segment>, s: Segment| !#[trigger] self.has_node(p.push(Segment::Wildcard).push(s))
    }

    /// In a well-formed table every beginning of a node's pattern is a
    /// node.
    pub proof fn lemma_has_prefix(self, pattern: Seq<Segment>, k: int)
        requires
            self.wf(),
            self.has_node(pattern),
            0 <= k <= pattern.len(),
        ensures
            self.has_node(pattern.take(k)),
        decreases pattern.len() - k,
    {
        if k == pattern.len() {
            assert(pattern.take(k) =~= pattern);
        } else {
            self.lemma_has_prefix(pattern, k + 1);
            assert(pattern.take(k + 1) =~= pattern.take(k).push(pattern[k]));
        }
    }

    /// A request that spells out the literal segments `texts` from a node
    /// goes down these very nodes, where they are there: no other route
    /// takes it away.
    pub proof fn lemma_literal_prefix_resolves(
        self,
        at: Seq<Segment>,
        texts: Seq<Seq<char>>,
        more: Seq<Seq<char>>,
        params: Map<Seq<char>, Seq<char>>,
    )
        requires
            self.wf(),
            self.has_node(at + literals(texts)),
        ensures
            self.resolve_from(at, texts + more, params) == self.resolve_from(
                at + literals(texts),
                more,
                params,
            ),
        decreases texts.len(),
    {
        if texts.len() == 0 {
            assert(texts + more =~= more);
            assert(at + literals(texts) =~= at);
        } else {
            let head = texts[0];
            let tail = texts.drop_first();
            let next = at.push(Segment::Literal(head));
            let whole = at + literals(texts);
            assert(whole =~= next + literals(tail));
            assert(whole.take(next.len() as int) =~= next);
            self.lemma_has_prefix(whole, next.len() as int);
            assert((texts + more)[0] == head);
            assert((texts + more).drop_first() =~= tail + more);
            self.lemma_literal_prefix_resolves(next, tail, more, params);
        }
    }

    /// A request that spells out a pattern of literal segments resolves to
    /// the handler at that pattern, with no parameter bound, and to nothing
    /// where the node has no handler.
    pub proof fn lemma_literal_route_resolves(self, texts: Seq<Seq<char>>)
        requires
            self.wf(),
            self.has_node(literals(texts)),
        ensures
            self.resolve(texts) == match self.handler_at(literals(texts)) {
                Some(handler) => Some(RouteMatch { handler, params: Map::empty() }),
                None => None,
            },
    {
        let none = Seq::<Seq<char>>::empty();
        let root = Seq::<Segment>::empty();
        assert(root + literals(texts) =~= literals(texts));
        assert(texts + none =~= texts);
        self.lemma_literal_prefix_resolves(root, texts, none, Map::empty());
    }

    /// Where a node has a wildcard child and no literal child for the next
    /// segment, the wildcard child takes all that is left of the request.
    pub proof fn lemma_wildcard_takes_rest(
        self,
        at: Seq<Segment>,
        rest: Seq<Seq<char>>,
        params: Map<Seq<char>, Seq<char>>,
    )
        requires
            self.wf(),
            self.has_node(at.push(Segment::Wildcard)),
            rest.len() > 0,
            !self.has_node(at.push(Segment::Literal(rest[0]))),
        ensures
            self.resolve_from(at, rest, params) == match self.handler_at(at.push(Segment::Wildcard)) {
                Some(handler) => Some(RouteMatch { handler, params }),
                None => None,
            },
    {
        assert forall|name: Seq<char>| !self.has_node(at.push(Segment::Variable(name))) by {
            if self.has_node(at.push(Segment::Variable(name))) {
                assert(Segment::Variable(name) == Segment::Wildcard);
            }
        }
    }

    /// Where a node has a variable child and no literal child for the next
    /// segment, the variable child takes the segment and binds it to its
    /// name.
    pub proof fn lemma_variable_binds(
        self,
        at: Seq<Segment>,
        name: Seq<char>,
        segments: Seq<Seq<char>>,
        params: Map<Seq<char>, Seq<char>>,
    )
        requires
            self.wf(),
            self.has_node(at.push(Segment::Variable(name))),
            segments.len() > 0,
            !self.has_node(at.push(Segment::Literal(segments[0]))),
        ensures
            self.resolve_from(at, segments, params) == self.resolve_from(
                at.push(Segment::Variable(name)),
                segments.drop_first(),
                params.insert(name, segments[0]),
            ),
    {
        let chosen = self.variable_at(at)->0;
        assert(self.has_node(at.push(Segment::Variable(chosen))));
        assert(Segment::Variable(chosen) == Segment::Variable(name));
    }

    /// Registration keeps a table well-formed, and handlers that can be
    /// invoked on every request stay so.
    pub proof fn lemma_with_route_wf(self, pattern: Seq<Segment>, handler: HandlerView)
        requires
            self.wf(),
            self.admits(pattern),
        ensures
            self.with_route(pattern, handler).wf(),
            self.accepts_all() && handler.accepts_all() ==> self.with_route(pattern, handler).accepts_all(),
    {
        let after = self.with_route(pattern, handler);
        assert(Seq::<Segment>::empty().is_prefix_of(pattern));
        assert forall|p: Seq<Segment>, s: Segment| #[trigger]
            after.has_node(p.push(s)) implies after.has_node(p) by {
            if !self.has_node(p.push(s)) {
                assert(p =~= pattern.subrange(0, p.len() as int)) by {
                    assert(p.push(s) =~= pattern.subrange(0, p.len() as int + 1));
                }
            }
        }
        assert forall|p: Seq<Segment>, a: Segment, b: Segment|
            after.has_node(p.push(a)) && after.has_node(p.push(b)) && !(a is Literal) && !(
            b is Literal) implies a == b by {
            let k = p.len() as int;
            if !self.has_node(p.push(a)) {
                assert(p.push(a) =~= pattern.subrange(0, k + 1));
                assert(p.push(a)[k] == pattern.subrange(0, k + 1)[k]);
                assert(pattern[k] == a);
                assert(pattern.take(k) =~= p);
            }
            if !self.has_node(p.push(b)) {
                assert(p.push(b) =~= pattern.subrange(0, k + 1));
                assert(p.push(b)[k] == pattern.subrange(0, k + 1)[k]);
                assert(pattern[k] == b);
                assert(pattern.take(k) =~= p);
            }
        }
        assert forall|p: Seq<Segment>, s: Segment| !#[trigger] after.has_node(
            p.push(Segment::Wildcard).push(s),
        ) by {
            let q = p.push(Segment::Wildcard).push(s);
            if q.is_prefix_of(pattern) {
                assert(q =~= pattern.subrange(0, q.len() as int));
                assert(pattern[p.len() as int] == q[p.len() as int]);
                assert(pattern[p.len() as int] is Wildcard);
            }
        }
    }

    /// After a pattern of literal segments is registered, the request that
    /// spells it out resolves to the new handler, with no parameter bound.
    pub proof fn lemma_registered_literal_route_resolves(self, texts: Seq<Seq<char>>, handler: HandlerView)
        requires
            self.wf(),
        ensures
            self.admits(literals(texts)),
            self.with_route(literals(texts), handler).resolve(texts) == Some(
                RouteMatch { handler, params: Map::empty() },
            ),
    {
        let pattern = literals(texts);
        self.lemma_with_route_wf(pattern, handler);
        let after = self.with_route(pattern, handler);
        assert(pattern.is_prefix_of(pattern));
        after.lemma_literal_route_resolves(texts);
    }

    /// Where a pattern of literal segments is the only route, a request
    /// resolves if and only if it spells that pattern out.
    pub proof fn lemma_single_literal_route(
        texts: Seq<Seq<char>>,
        segments: Seq<Seq<char>>,
        handler: HandlerView,
    )
        ensures
            RouteTable::empty().with_route(literals(texts), handler).resolve(segments) is Some == (
            segments == texts),
    {
        let pattern = literals(texts);
        let table = RouteTable::empty().with_route(pattern, handler);
        if segments == texts {
            RouteTable::empty().lemma_registered_literal_route_resolves(texts, handler);
        } else {
            assert forall|p: Seq<Segment>| #[trigger] table.handler_at(p) is Some implies !fits(
                p,
                segments,
            ) by {
                assert(p == pattern);
                lemma_literal_pattern_fits(texts, segments);
            }
            table.lemma_unfitting_request_is_not_found(segments);
        }
    }

    /// After a pattern of literal segments with a wildcard behind them is
    /// registered, a request that spells out the literal segments and goes
    /// on resolves to the new handler, with no parameter bound, unless a
    /// literal child takes the first segment that goes on.
    pub proof fn lemma_registered_wildcard_route_resolves(
        self,
        texts: Seq<Seq<char>>,
        rest: Seq<Seq<char>>,
        handler: HandlerView,
    )
        requires
            self.wf(),
            self.admits(literals(texts).push(Segment::Wildcard)),
            rest.len() > 0,
            !self.has_node(literals(texts).push(Segment::Literal(rest[0]))),
        ensures
            self.with_route(literals(texts).push(Segment::Wildcard), handler).resolve(texts + rest)
                == Some(RouteMatch { handler, params: Map::empty() }),
    {
        let at = literals(texts);
        let pattern = at.push(Segment::Wildcard);
        let after = self.with_route(pattern, handler);
        let root = Seq::<Segment>::empty();
        self.lemma_with_route_wf(pattern, handler);
        assert(pattern.is_prefix_of(pattern));
        assert(pattern.take(at.len() as int) =~= at);
        after.lemma_has_prefix(pattern, at.len() as int);
        assert(root + at =~= at);
        after.lemma_literal_prefix_resolves(root, texts, rest, Map::empty());
        let taken = at.push(Segment::Literal(rest[0]));
        assert(!taken.is_prefix_of(pattern)) by {
            if taken.is_prefix_of(pattern) {
                assert(taken[at.len() as int] == pattern.subrange(0, taken.len() as int)[at.len() as int]);
            }
        }
        after.lemma_wildcard_takes_rest(at, rest, Map::empty());
    }

    /// After a pattern of literal segments with a variable behind them is
    /// registered, a request that spells out the literal segments and has
    /// one more resolves to the new handler, with that segment bound to the
    /// variable, unless a literal child takes the segment.
    pub proof fn lemma_registered_variable_route_resolves(
        self,
        texts: Seq<Seq<char>>,
        name: Seq<char>,
        value: Seq<char>,
        handler: HandlerView,
    )
        requires
            self.wf(),
            self.admits(literals(texts).push(Segment::Variable(name))),
            !self.has_node(literals(texts).push(Segment::Literal(value))),
        ensures
            self.with_route(literals(texts).push(Segment::Variable(name)), handler).resolve(
                texts.push(value),
            ) == Some(RouteMatch { handler, params: Map::empty().insert(name, value) }),
    {
        let at = literals(texts);
        let pattern = at.push(Segment::Variable(name));
        let after = self.with_route(pattern, handler);
        let root = Seq::<Segment>::empty();
        let rest = seq![value];
        self.lemma_with_route_wf(pattern, handler);
        assert(pattern.is_prefix_of(pattern));
        assert(pattern.take(at.len() as int) =~= at);
        after.lemma_has_prefix(pattern, at.len() as int);
        assert(root + at =~= at);
        assert(texts + rest =~= texts.push(value));
        after.lemma_literal_prefix_resolves(root, texts, rest, Map::empty());
        let taken = at.push(Segment::Literal(value));
        assert(!taken.is_prefix_of(pattern)) by {
            if taken.is_prefix_of(pattern) {
                assert(taken[at.len() as int] == pattern.subrange(0, taken.len() as int)[at.len() as int]);
            }
        }
        after.lemma_variable_binds(at, name, rest, Map::empty());
        assert(rest.drop_first() =~= Seq::<Seq<char>>::empty());
    }
}

/// Whether the request segments `segments` fit `pattern`: a literal
/// segment stands for its own text, a variable for any one segment, and a
/// wildcard at the end for one segment or more.
pub open spec fn fits(pattern: Seq<Segment>, segments: Seq<Seq<char>>) -> bool
    decreases pattern.len(),
{
    if pattern.len() == 0 {
        segments.len() == 0
    } else if segments.len() == 0 {
        false
    } else {
        match pattern[0] {
            Segment::Literal(text) => segments[0] == text && fits(pattern.drop_first(), segments.drop_first()),
            Segment::Variable(_) => fits(pattern.drop_first(), segments.drop_first()),
            Segment::Wildcard => pattern.len() == 1,
        }
    }
}

/// The route parameters after `segments` went along `pattern`: `params`,
/// and every variable of the pattern bound to its segment, a later one
/// over an earlier one of the same name.
pub open spec fn bindings(
    pattern: Seq<Segment>,
    segments: Seq<Seq<char>>,
    params: Map<Seq<char>, Seq<char>>,
) -> Map<Seq<char>, Seq<char>>
    decreases pattern.len(),
{
    if pattern.len() == 0 || segments.len() == 0 {
        params
    } else {
        match pattern[0] {
            Segment::Literal(_) => bindings(pattern.drop_first(), segments.drop_first(), params),
            Segment::Variable(name) => bindings(
                pattern.drop_first(),
                segments.drop_first(),
                params.insert(name, segments[0]),
            ),
            Segment::Wildcard => params,
        }
    }
}

/// A pattern of literal segments fits the request that spells it out, and
/// no other.
pub proof fn lemma_literal_pattern_fits(texts: Seq<Seq<char>>, segments: Seq<Seq<char>>)
    ensures
        fits(literals(texts), segments) == (segments == texts),
    decreases texts.len(),
{
    let pattern = literals(texts);
    if texts.len() == 0 {
        if segments.len() == 0 {
            assert(segments =~= texts);
        }
    } else if segments.len() == 0 {
    } else {
        assert(pattern.drop_first() =~= literals(texts.drop_first()));
        lemma_literal_pattern_fits(texts.drop_first(), segments.drop_first());
        if segments[0] == texts[0] && segments.drop_first() == texts.drop_first() {
            assert(segments =~= seq![segments[0]] + segments.drop_first());
            assert(texts =~= seq![texts[0]] + texts.drop_first());
        }
    }
}

/// The pattern of literal segments with the texts `texts`.
pub open spec fn literals(texts: Seq<Seq<char>>) -> Seq<Segment> {
    Seq::new(texts.len(), |i: int| Segment::Literal(texts[i]))
}

} // verus!
