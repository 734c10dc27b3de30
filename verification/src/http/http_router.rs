//! The router: one route tree per method, and the handler for requests
//! that no route matches.

use vstd::prelude::*;
use vstd::string::*;
use crate::http::route_path::{
    has_wildcard_last, is_literal_path, path_segments, pattern, pattern_of, segment_views, segments,
    wildcard_is_last, PathSegment, Segment,
};
use crate::http::route_table::{literals, HandlerView, RouteMatch, RouteTable};
use crate::http::string_map::StringMap;
use crate::http::text::{same_text, views};
use crate::http::{ConfigError, HttpMethod, HttpRequest, HttpResponse, HttpResponseView, StatusCode};

verus! {

/// What answers a request. `accepts` says which requests the handler can
/// be invoked on, `answers` which responses it may give to a request.
pub trait HttpRouteHandler: Send + Sync {
    spec fn accepts(&self, request: HttpRequest) -> bool;

    spec fn answers(&self, request: HttpRequest, response: HttpResponse) -> bool;

    fn invoke(&self, request: HttpRequest) -> (response: HttpResponse)
        requires
            self.accepts(request),
        ensures
            self.answers(request, response),
    ;
}

/// Every function from requests to responses that threads can share is a
/// handler.
impl<F: Fn(HttpRequest) -> HttpResponse + Send + Sync> HttpRouteHandler for F {
    open spec fn accepts(&self, request: HttpRequest) -> bool {
        call_requires(*self, (request,))
    }

    open spec fn answers(&self, request: HttpRequest, response: HttpResponse) -> bool {
        call_ensures(*self, (request,), response)
    }

    fn invoke(&self, request: HttpRequest) -> (response: HttpResponse) {
        self(request)
    }
}

/// What `handler` does.
pub open spec fn view_of<H: HttpRouteHandler + ?Sized>(handler: Box<H>) -> HandlerView {
    HandlerView {
        accepts: |request: HttpRequest| handler.accepts(request),
        answers: |request: HttpRequest, response: HttpResponse| handler.answers(request, response),
    }
}

/// The handler can be invoked on every request.
pub open spec fn accepts_all<H: HttpRouteHandler + ?Sized>(handler: Box<H>) -> bool {
    forall|request: HttpRequest| #[trigger] handler.accepts(request)
}

/// A child of a node under a literal segment.
pub struct StaticChild<H: ?Sized> {
    key: String,
    node: HttpRouteNode<H>,
}

/// How a node's one child that is not literal matches.
pub enum CatchAllKind {
    Variable(String),
    Wildcard,
}

/// The one child of a node that is not under a literal segment.
pub struct CatchAllChild<H: ?Sized> {
    kind: CatchAllKind,
    node: HttpRouteNode<H>,
}

/// A node of a route tree.
pub struct HttpRouteNode<H: ?Sized> {
    handler: Option<Box<H>>,
    children: Vec<StaticChild<H>>,
    catch_all: Option<Box<CatchAllChild<H>>>,
}

impl CatchAllKind {
    /// The segment that this kind of child is registered under.
    spec fn segment(self) -> Segment {
        match self {
            CatchAllKind::Variable(name) => Segment::Variable(name@),
            CatchAllKind::Wildcard => Segment::Wildcard,
        }
    }
}

impl<H: HttpRouteHandler + ?Sized> HttpRouteNode<H> {
    /// Whether a literal child has the key `key`.
    spec fn has_static(&self, key: Seq<char>) -> bool {
        exists|i: int| 0 <= i < self.children@.len() && (#[trigger] self.children@[i]).key@ == key
    }

    /// The place of a literal child with the key `key`.
    spec fn static_place(&self, key: Seq<char>) -> int {
        choose|i: int| 0 <= i < self.children@.len() && (#[trigger] self.children@[i]).key@ == key
    }

    /// Whether the node has no children.
    pub closed spec fn is_leaf(&self) -> bool {
        self.children@.len() == 0 && self.catch_all is None
    }

    /// The child under the segment `segment`.
    spec fn child(&self, segment: Segment) -> Option<HttpRouteNode<H>> {
        match segment {
            Segment::Literal(key) => if self.has_static(key) {
                Some(self.children@[self.static_place(key)].node)
            } else {
                None
            },
            _ => match self.catch_all {
                Some(c) => if c.kind.segment() == segment {
                    Some(c.node)
                } else {
                    None
                },
                None => None,
            },
        }
    }

    /// The node that `pattern` leads to from this one.
    spec fn descend(&self, pattern: Seq<Segment>) -> Option<HttpRouteNode<H>>
        decreases pattern.len(),
    {
        if pattern.len() == 0 {
            Some(*self)
        } else {
            match self.child(pattern[0]) {
                Some(c) => c.descend(pattern.drop_first()),
                None => None,
            }
        }
    }

    /// What the handler at this node does, if there is one.
    spec fn handler_view(&self) -> Option<HandlerView> {
        match self.handler {
            Some(handler) => Some(view_of(handler)),
            None => None,
        }
    }

    /// The tree below this node as a table.
    pub closed spec fn table(&self) -> RouteTable {
        RouteTable {
            nodes: Map::new(
                |pattern: Seq<Segment>| self.descend(pattern) is Some,
                |pattern: Seq<Segment>| self.descend(pattern)->0.handler_view(),
            ),
        }
    }

    /// The invariant of the tree: literal children have distinct keys, a
    /// wildcard child is a leaf, and every handler can be invoked on every
    /// request.
    pub closed spec fn wf(&self) -> bool
        decreases self,
    {
        &&& forall|i: int, j: int|
            0 <= i < j < self.children@.len() ==> (#[trigger] self.children@[i]).key@ != (
            #[trigger] self.children@[j]).key@
        &&& forall|i: int| 0 <= i < self.children@.len() ==> (#[trigger] self.children@[i]).node.wf()
        &&& match self.catch_all {
            Some(c) => c.node.wf() && (c.kind is Wildcard ==> c.node.is_leaf()),
            None => true,
        }
        &&& match self.handler {
            Some(h) => accepts_all(h),
            None => true,
        }
    }

    /// A node without handler and without children.
    pub fn new() -> (node: HttpRouteNode<H>)
        ensures
            node.wf(),
            node.is_leaf(),
            node.table() == RouteTable::empty(),
    {
        let node = HttpRouteNode { handler: None, children: Vec::new(), catch_all: None };
        proof {
            node.lemma_leaf_table();
        }
        node
    }

    /// A node without children has only itself in its table.
    proof fn lemma_leaf_table(&self)
        requires
            self.children@.len() == 0,
            self.catch_all is None,
        ensures
            self.table().nodes == Map::<Seq<Segment>, Option<HandlerView>>::empty().insert(
                Seq::<Segment>::empty(),
                self.handler_view(),
            ),
    {
        let expected = Map::<Seq<Segment>, Option<HandlerView>>::empty().insert(
            Seq::<Segment>::empty(),
            self.handler_view(),
        );
        assert forall|p: Seq<Segment>| #[trigger]
            self.table().nodes.contains_key(p) == expected.contains_key(p) by {
            if p.len() > 0 {
                assert(self.child(p[0]) is None);
                assert(p != Seq::<Segment>::empty());
            } else {
                assert(p =~= Seq::<Segment>::empty());
            }
        }
        assert(self.table().nodes =~= expected);
    }

    /// The children of a well-formed node are well-formed.
    proof fn lemma_child_wf(&self, segment: Segment)
        requires
            self.wf(),
            self.child(segment) is Some,
        ensures
            self.child(segment)->0.wf(),
    {
        match segment {
            Segment::Literal(key) => {
                assert(self.children@[self.static_place(key)].node.wf());
            },
            _ => {},
        }
    }

    /// One more step after `pattern` is a step from the node that `pattern`
    /// leads to.
    proof fn lemma_descend_push(&self, pattern: Seq<Segment>, segment: Segment)
        ensures
            self.descend(pattern.push(segment)) == match self.descend(pattern) {
                Some(node) => node.child(segment),
                None => None,
            },
        decreases pattern.len(),
    {
        let longer = pattern.push(segment);
        if pattern.len() == 0 {
            assert(longer[0] == segment);
            assert(longer.drop_first() =~= Seq::<Segment>::empty());
            match self.child(segment) {
                Some(c) => {
                    assert(c.descend(Seq::<Segment>::empty()) == Some(c));
                },
                None => {},
            }
        } else {
            assert(longer[0] == pattern[0]);
            assert(longer.drop_first() =~= pattern.drop_first().push(segment));
            match self.child(pattern[0]) {
                Some(c) => {
                    c.lemma_descend_push(pattern.drop_first(), segment);
                },
                None => {},
            }
        }
    }

    /// Every node below a well-formed node is well-formed.
    proof fn lemma_descend_wf(&self, pattern: Seq<Segment>)
        requires
            self.wf(),
            self.descend(pattern) is Some,
        ensures
            self.descend(pattern)->0.wf(),
        decreases pattern.len(),
    {
        if pattern.len() > 0 {
            self.lemma_child_wf(pattern[0]);
            self.child(pattern[0])->0.lemma_descend_wf(pattern.drop_first());
        }
    }

    /// The table of a well-formed tree is well-formed, and its handlers can
    /// be invoked on every request.
    pub proof fn lemma_table_wf(&self)
        requires
            self.wf(),
        ensures
            self.table().wf(),
            self.table().accepts_all(),
    {
        let table = self.table();
        assert(self.descend(Seq::<Segment>::empty()) is Some);
        assert forall|p: Seq<Segment>, s: Segment| #[trigger]
            table.has_node(p.push(s)) implies table.has_node(p) by {
            self.lemma_descend_push(p, s);
        }
        assert forall|p: Seq<Segment>, a: Segment, b: Segment|
            table.has_node(p.push(a)) && table.has_node(p.push(b)) && !(a is Literal) && !(
            b is Literal) implies a == b by {
            self.lemma_descend_push(p, a);
            self.lemma_descend_push(p, b);
        }
        assert forall|p: Seq<Segment>, s: Segment| !#[trigger] table.has_node(
            p.push(Segment::Wildcard).push(s),
        ) by {
            self.lemma_descend_push(p.push(Segment::Wildcard), s);
            self.lemma_descend_push(p, Segment::Wildcard);
            if self.descend(p.push(Segment::Wildcard)) is Some {
                self.lemma_descend_wf(p);
                let parent = self.descend(p)->0;
                let leaf = parent.child(Segment::Wildcard)->0;
                assert(leaf.is_leaf());
                assert(leaf.child(s) is None);
            }
        }
        assert forall|p: Seq<Segment>| #[trigger] table.handler_at(p) is Some implies table.handler_at(
            p,
        )->0.accepts_all() by {
            self.lemma_descend_wf(p);
        }
    }

    /// The literal child under `key`, by its place among the children.
    fn find_static(&self, key: &str) -> (found: Option<usize>)
        requires
            self.wf(),
        ensures
            match found {
                Some(j) => j < self.children@.len() && self.children@[j as int].key@ == key@
                    && self.child(Segment::Literal(key@)) == Some(self.children@[j as int].node),
                None => self.child(Segment::Literal(key@)) is None,
            },
    {
        let mut j: usize = 0;
        while j < self.children.len()
            invariant
                j <= self.children@.len(),
                self.wf(),
                forall|k: int| 0 <= k < j ==> (#[trigger] self.children@[k]).key@ != key@,
            decreases self.children@.len() - j,
        {
            if same_text(self.children[j].key.as_str(), key) {
                proof {
                    assert(self.children@[j as int].key@ == key@);
                    assert(self.has_static(key@));
                    let place = self.static_place(key@);
                    assert(self.children@[place].key@ == key@);
                    assert(place == j);
                }
                return Some(j);
            }
            j = j + 1;
        }
        None
    }

    /// Resolves the request segments `segments` from this node: the handler
    /// that matches, with the values bound to the variables on the way.
    pub fn resolve(&self, segments: &Vec<String>) -> (found: Option<
        (&Box<H>, StringMap),
    >)
        requires
            self.wf(),
        ensures
            match found {
                Some((handler, params)) => self.table().resolve(views(segments@)) == Some(
                    RouteMatch { handler: view_of(*handler), params: params@ },
                ) && accepts_all(*handler),
                None => self.table().resolve(views(segments@)) is None,
            },
    {
        let ghost table = self.table();
        let ghost all = views(segments@);
        let mut cur: &HttpRouteNode<H> = self;
        let mut params = StringMap::new();
        let mut i: usize = 0;
        let ghost mut at: Seq<Segment> = Seq::empty();
        proof {
            assert(all.skip(0) =~= all);
        }
        while i < segments.len()
            invariant
                i <= segments@.len(),
                table == self.table(),
                all == views(segments@),
                self.descend(at) == Some(*cur),
                cur.wf(),
                table.resolve_from(at, all.skip(i as int), params@) == table.resolve(all),
            decreases segments@.len() - i,
        {
            let text = segments[i].as_str();
            let ghost head = all.skip(i as int)[0];
            let ghost rest = all.skip(i as int).drop_first();
            proof {
                assert(head == text@);
                assert(rest =~= all.skip(i + 1));
                self.lemma_descend_push(at, Segment::Literal(head));
                self.lemma_descend_push(at, Segment::Wildcard);
                assert forall|name: Seq<char>|
                    table.has_node(at.push(Segment::Variable(name))) == (cur.child(
                        Segment::Variable(name),
                    ) is Some) by {
                    self.lemma_descend_push(at, Segment::Variable(name));
                }
            }
            match cur.find_static(text) {
                Some(j) => {
                    proof {
                        cur.lemma_child_wf(Segment::Literal(head));
                        at = at.push(Segment::Literal(head));
                    }
                    cur = &cur.children[j].node;
                },
                None => {
                    match &cur.catch_all {
                        Some(c) => {
                            match &c.kind {
                                CatchAllKind::Variable(name) => {
                                    proof {
                                        assert(cur.child(Segment::Variable(name@)) is Some);
                                        assert(table.has_node(at.push(Segment::Variable(name@))));
                                        let chosen = table.variable_at(at)->0;
                                        assert(cur.child(Segment::Variable(chosen)) is Some);
                                        assert(chosen == name@);
                                        cur.lemma_child_wf(Segment::Variable(name@));
                                        self.lemma_descend_push(at, Segment::Variable(name@));
                                        at = at.push(Segment::Variable(name@));
                                    }
                                    params.insert(name.clone(), segments[i].clone());
                                    cur = &c.node;
                                                },
                                CatchAllKind::Wildcard => {
                                    proof {
                                        assert(forall|name: Seq<char>|
                                            cur.child(Segment::Variable(name)) is None);
                                        assert(table.variable_at(at) is None);
                                        assert(cur.child(Segment::Wildcard) == Some(c.node));
                                        cur.lemma_child_wf(Segment::Wildcard);
                                    }
                                    return match &c.node.handler {
                                        Some(handler) => Some((handler, params)),
                                        None => None,
                                    };
                                },
                            }
                        },
                        None => {
                            proof {
                                assert(forall|name: Seq<char>|
                                    cur.child(Segment::Variable(name)) is None);
                                assert(table.variable_at(at) is None);
                                assert(cur.child(Segment::Wildcard) is None);
                            }
                            return None;
                        },
                    }
                },
            }
            i = i + 1;
        }
        proof {
            assert(all.skip(i as int).len() == 0);
            assert(table.handler_at(at) == cur.handler_view());
        }
        match &cur.handler {
            Some(handler) => Some((handler, params)),
            None => None,
        }
    }

    /// What `conflict_free` asks of this node, and what of the child that
    /// the pattern goes on with.
    proof fn lemma_conflict_free_step(&self, pattern: Seq<Segment>)
        requires
            pattern.len() > 0,
        ensures
            self.table().conflict_free(pattern) == ((!(pattern[0] is Literal)
                ==> match self.catch_all {
                Some(c) => c.kind.segment() == pattern[0],
                None => true,
            }) && match self.child(pattern[0]) {
                Some(c) => c.table().conflict_free(pattern.drop_first()),
                None => true,
            }),
    {
        let first = pattern[0];
        let rest = pattern.drop_first();
        let table = self.table();
        if table.conflict_free(pattern) {
            if !(first is Literal) {
                match self.catch_all {
                    Some(c) => {
                        let other = c.kind.segment();
                        assert(pattern.take(0).push(other) =~= seq![other]);
                        assert(seq![other].drop_first() =~= Seq::<Segment>::empty());
                        assert(self.child(other) == Some(c.node));
                        assert(c.node.descend(Seq::<Segment>::empty()) is Some);
                        assert(self.descend(seq![other]) is Some);
                        assert(table.has_node(pattern.take(0).push(other)));
                    },
                    None => {},
                }
            }
            match self.child(first) {
                Some(c) => {
                    assert forall|k: int, other: Segment|
                        0 <= k < rest.len() && !(rest[k] is Literal) && !(other is Literal)
                            && #[trigger] c.table().has_node(
                            rest.take(k).push(other),
                        ) implies other == rest[k] by {
                        let below = rest.take(k).push(other);
                        let whole = pattern.take(k + 1).push(other);
                        assert(whole[0] == first);
                        assert(whole.drop_first() =~= below);
                        assert(table.has_node(whole));
                    }
                },
                None => {},
            }
        } else {
            let (k, other) = choose|k: int, other: Segment|
                0 <= k < pattern.len() && !(pattern[k] is Literal) && !(other is Literal)
                    && #[trigger] table.has_node(pattern.take(k).push(other)) && other != pattern[k];
            let whole = pattern.take(k).push(other);
            if k == 0 {
                assert(whole =~= seq![other]);
                assert(self.child(other) is Some);
            } else {
                let below = rest.take(k - 1).push(other);
                assert(whole[0] == first);
                assert(whole.drop_first() =~= below);
                assert(self.child(first) is Some);
                let c = self.child(first)->0;
                assert(c.table().has_node(rest.take(k - 1).push(other)));
                assert(rest[k - 1] == pattern[k]);
            }
        }
    }

    /// Whether the rest of `pattern` from `depth` on is free of conflicts
    /// with the tree below this node.
    pub fn admits(&self, pattern: &Vec<PathSegment>, depth: usize) -> (ok: bool)
        requires
            self.wf(),
            depth <= pattern@.len(),
        ensures
            ok == self.table().conflict_free(segment_views(pattern@).skip(depth as int)),
        decreases pattern@.len() - depth,
    {
        let ghost rest = segment_views(pattern@).skip(depth as int);
        if depth >= pattern.len() {
            return true;
        }
        proof {
            assert(rest[0] == pattern@[depth as int]@);
            assert(rest.drop_first() =~= segment_views(pattern@).skip(depth + 1));
            self.lemma_conflict_free_step(rest);
            if self.child(rest[0]) is Some {
                self.lemma_child_wf(rest[0]);
            }
        }
        match &pattern[depth] {
            PathSegment::Literal(key) => match self.find_static(key.as_str()) {
                Some(j) => self.children[j].node.admits(pattern, depth + 1),
                None => true,
            },
            PathSegment::Variable(name) => match &self.catch_all {
                Some(c) => match &c.kind {
                    CatchAllKind::Variable(bound) => {
                        if same_text(bound.as_str(), name.as_str()) {
                            c.node.admits(pattern, depth + 1)
                        } else {
                            false
                        }
                    },
                    CatchAllKind::Wildcard => false,
                },
                None => true,
            },
            PathSegment::Wildcard => match &self.catch_all {
                Some(c) => match &c.kind {
                    CatchAllKind::Variable(_) => false,
                    CatchAllKind::Wildcard => c.node.admits(pattern, depth + 1),
                },
                None => true,
            },
        }
    }

    /// The table of a node that differs from `before` only in the handler
    /// at the node itself.
    proof fn lemma_table_set_handler(&self, before: &HttpRouteNode<H>, handler: Box<H>)
        requires
            self.handler == Some(handler),
            self.children == before.children,
            self.catch_all == before.catch_all,
        ensures
            self.table() == before.table().with_route(Seq::<Segment>::empty(), view_of(handler)),
    {
        let expected = before.table().with_route(Seq::<Segment>::empty(), view_of(handler));
        assert forall|p: Seq<Segment>| #[trigger]
            self.table().nodes.contains_key(p) == expected.nodes.contains_key(p)
            && (self.table().nodes.contains_key(p) ==> self.table().nodes[p] == expected.nodes[p]) by {
            if p.len() == 0 {
                assert(p =~= Seq::<Segment>::empty());
                assert(p.is_prefix_of(Seq::<Segment>::empty()));
            } else {
                assert(self.child(p[0]) == before.child(p[0]));
                assert(!p.is_prefix_of(Seq::<Segment>::empty()));
            }
        }
        assert(self.table().nodes =~= expected.nodes);
    }

    /// The table of a node that differs from `before` only below the child
    /// under the first segment of `pattern`, where the rest of `pattern` was
    /// registered.
    proof fn lemma_table_after_step(
        &self,
        before: &HttpRouteNode<H>,
        pattern: Seq<Segment>,
        handler: Box<H>,
    )
        requires
            pattern.len() > 0,
            self.handler == before.handler,
            forall|segment: Segment|
                segment != pattern[0] ==> #[trigger] self.child(segment) == before.child(segment),
            self.child(pattern[0]) is Some,
            self.child(pattern[0])->0.table() == (match before.child(pattern[0]) {
                Some(c) => c.table(),
                None => RouteTable::empty(),
            }).with_route(pattern.drop_first(), view_of(handler)),
        ensures
            self.table() == before.table().with_route(pattern, view_of(handler)),
    {
        let first = pattern[0];
        let rest = pattern.drop_first();
        let expected = before.table().with_route(pattern, view_of(handler));
        let below = self.child(first)->0;
        let below_before = match before.child(first) {
            Some(c) => c.table(),
            None => RouteTable::empty(),
        };
        assert forall|p: Seq<Segment>| #[trigger]
            self.table().nodes.contains_key(p) == expected.nodes.contains_key(p)
            && (self.table().nodes.contains_key(p) ==> self.table().nodes[p] == expected.nodes[p]) by {
            if p.len() == 0 {
                assert(p.is_prefix_of(pattern));
                assert(p != pattern);
            } else if p[0] == first {
                let q = p.drop_first();
                assert(self.descend(p) == below.descend(q));
                assert(below.table().has_node(q) == (below_before.has_node(q) || q.is_prefix_of(rest)));
                assert(q.is_prefix_of(rest) == p.is_prefix_of(pattern)) by {
                    if q.is_prefix_of(rest) {
                        assert forall|i: int| 0 <= i < p.len() implies p[i] == pattern[i] by {
                            if i > 0 {
                                assert(p[i] == q[i - 1]);
                                assert(q[i - 1] == rest.subrange(0, q.len() as int)[i - 1]);
                            }
                        }
                        assert(p =~= pattern.subrange(0, p.len() as int));
                    }
                    if p.is_prefix_of(pattern) {
                        assert(q =~= rest.subrange(0, q.len() as int));
                    }
                }
                assert((q == rest) == (p == pattern)) by {
                    if q == rest {
                        assert(p =~= pattern);
                    }
                }
                match before.child(first) {
                    Some(c) => {
                        assert(before.descend(p) == c.descend(q));
                    },
                    None => {
                        assert(before.descend(p) is None);
                        assert(q.len() > 0 ==> !RouteTable::empty().has_node(q));
                        if q.len() == 0 {
                            assert(q =~= Seq::<Segment>::empty());
                            assert(q.is_prefix_of(rest));
                        }
                    },
                }
                if below.table().has_node(q) {
                    assert(below.table().nodes[q] == if q == rest {
                        Some(view_of(handler))
                    } else {
                        below_before.handler_at(q)
                    });
                }
            } else {
                assert(self.child(p[0]) == before.child(p[0]));
                assert(!p.is_prefix_of(pattern)) by {
                    if p.is_prefix_of(pattern) {
                        assert(p[0] == pattern.subrange(0, p.len() as int)[0]);
                    }
                }
            }
        }
        assert(self.table().nodes =~= expected.nodes);
    }

    /// The children of a node of which only the literal child at place `j`
    /// has changed below its key.
    proof fn lemma_children_after_update(&self, before: &HttpRouteNode<H>, j: int)
        requires
            before.wf(),
            self.catch_all == before.catch_all,
            self.children@.len() == before.children@.len(),
            0 <= j < self.children@.len(),
            self.children@[j].key == before.children@[j].key,
            forall|i: int|
                0 <= i < self.children@.len() && i != j ==> self.children@[i] == before.children@[i],
        ensures
            forall|segment: Segment|
                segment != Segment::Literal(self.children@[j].key@) ==> #[trigger] self.child(segment)
                    == before.child(segment),
            self.child(Segment::Literal(self.children@[j].key@)) == Some(self.children@[j].node),
            before.child(Segment::Literal(self.children@[j].key@)) == Some(before.children@[j].node),
    {
        let key = self.children@[j].key@;
        assert forall|i: int| 0 <= i < self.children@.len() implies (#[trigger] self.children@[i]).key
            == before.children@[i].key by {}
        assert(self.has_static(key));
        assert(before.has_static(key));
        assert(self.static_place(key) == j) by {
            let place = self.static_place(key);
            assert(before.children@[place].key@ == before.children@[j].key@);
        }
        assert(before.static_place(key) == j);
        assert forall|segment: Segment| segment != Segment::Literal(key) implies #[trigger] self.child(
            segment,
        ) == before.child(segment) by {
            match segment {
                Segment::Literal(other) => {
                    if before.has_static(other) {
                        let place = before.static_place(other);
                        assert(self.children@[place].key@ == other);
                        assert(self.has_static(other));
                        let here = self.static_place(other);
                        assert(before.children@[here].key@ == other);
                        assert(here == place);
                    }
                    if self.has_static(other) {
                        let here = self.static_place(other);
                        assert(before.children@[here].key@ == other);
                        assert(before.has_static(other));
                    }
                },
                _ => {},
            }
        }
    }

    /// The children of a node that has got one more literal child.
    proof fn lemma_children_after_push(&self, before: &HttpRouteNode<H>)
        requires
            before.wf(),
            self.catch_all == before.catch_all,
            self.children@.len() == before.children@.len() + 1,
            self.children@.drop_last() == before.children@,
            !before.has_static(self.children@.last().key@),
        ensures
            forall|segment: Segment|
                segment != Segment::Literal(self.children@.last().key@) ==> #[trigger] self.child(segment)
                    == before.child(segment),
            self.child(Segment::Literal(self.children@.last().key@)) == Some(self.children@.last().node),
            before.child(Segment::Literal(self.children@.last().key@)) is None,
            forall|i: int, j: int|
                0 <= i < j < self.children@.len() ==> (#[trigger] self.children@[i]).key@ != (
                #[trigger] self.children@[j]).key@,
    {
        let key = self.children@.last().key@;
        let last = self.children@.len() - 1;
        assert forall|i: int| 0 <= i < last implies #[trigger] self.children@[i] == before.children@[i] by {
            assert(self.children@.drop_last()[i] == self.children@[i]);
        }
        assert forall|i: int| 0 <= i < last implies (#[trigger] self.children@[i]).key@ != key by {
            assert(before.children@[i].key@ == self.children@[i].key@);
        }
        assert(self.children@[last].key@ == key);
        assert(self.has_static(key));
        assert(self.static_place(key) == last);
        assert forall|segment: Segment| segment != Segment::Literal(key) implies #[trigger] self.child(
            segment,
        ) == before.child(segment) by {
            match segment {
                Segment::Literal(other) => {
                    if before.has_static(other) {
                        let place = before.static_place(other);
                        assert(self.children@[place].key@ == other);
                        assert(self.has_static(other));
                        let here = self.static_place(other);
                        assert(here != last);
                        assert(before.children@[here].key@ == other);
                        assert(here == place);
                    }
                    if self.has_static(other) {
                        let here = self.static_place(other);
                        assert(here != last);
                        assert(before.children@[here].key@ == other);
                        assert(before.has_static(other));
                    }
                },
                _ => {},
            }
        }
    }

    /// Registers `handler` at the end of `pattern`, of which this node is
    /// reached after `depth` segments. The nodes that are missing on the way
    /// are made.
    pub fn on(&mut self, pattern: &Vec<PathSegment>, depth: usize, handler: Box<H>)
        requires
            old(self).wf(),
            depth <= pattern@.len(),
            accepts_all(handler),
            old(self).table().admits(segment_views(pattern@).skip(depth as int)),
        ensures
            final(self).wf(),
            final(self).table() == old(self).table().with_route(
                segment_views(pattern@).skip(depth as int),
                view_of(handler),
            ),
            depth == pattern@.len() && old(self).is_leaf() ==> final(self).is_leaf(),
        decreases pattern@.len() - depth,
    {
        let ghost rest = segment_views(pattern@).skip(depth as int);
        let ghost before = *self;
        if depth >= pattern.len() {
            self.handler = Some(handler);
            proof {
                assert(rest =~= Seq::<Segment>::empty());
                self.lemma_table_set_handler(&before, handler);
            }
            return;
        }
        proof {
            assert(rest[0] == pattern@[depth as int]@);
            assert(rest.drop_first() =~= segment_views(pattern@).skip(depth + 1));
            before.lemma_conflict_free_step(rest);
            if before.child(rest[0]) is Some {
                before.lemma_child_wf(rest[0]);
            }
            assert(wildcard_is_last(rest.drop_first())) by {
                let tail = rest.drop_first();
                assert forall|i: int| 0 <= i < tail.len() && #[trigger] tail[i] is Wildcard implies i
                    == tail.len() - 1 by {
                    assert(rest[i + 1] is Wildcard);
                }
            }
        }
        match &pattern[depth] {
            PathSegment::Literal(key) => {
                match self.find_static(key.as_str()) {
                    Some(j) => {
                        self.children[j].node.on(pattern, depth + 1, handler);
                        proof {
                            self.lemma_children_after_update(&before, j as int);
                            assert forall|i: int| 0 <= i < self.children@.len() implies (
                            #[trigger] self.children@[i]).node.wf() by {
                                if i != j {
                                    assert(before.children@[i].node.wf());
                                }
                            }
                            assert forall|a: int, b: int| 0 <= a < b < self.children@.len() implies (
                            #[trigger] self.children@[a]).key@ != (#[trigger] self.children@[b]).key@ by {
                                assert(self.children@[a].key == before.children@[a].key);
                                assert(self.children@[b].key == before.children@[b].key);
                            }
                        }
                    },
                    None => {
                        let mut node = HttpRouteNode::new();
                        node.on(pattern, depth + 1, handler);
                        self.children.push(StaticChild { key: key.clone(), node });
                        proof {
                            assert(self.children@.drop_last() =~= before.children@);
                            self.lemma_children_after_push(&before);
                            assert forall|i: int| 0 <= i < self.children@.len() implies (
                            #[trigger] self.children@[i]).node.wf() by {
                                if i < before.children@.len() {
                                    assert(self.children@[i] == before.children@[i]);
                                    assert(before.children@[i].node.wf());
                                }
                            }
                        }
                    },
                }
            },
            PathSegment::Variable(name) => {
                match self.catch_all.take() {
                    Some(mut c) => {
                        c.node.on(pattern, depth + 1, handler);
                        self.catch_all = Some(c);
                    },
                    None => {
                        let mut node = HttpRouteNode::new();
                        node.on(pattern, depth + 1, handler);
                        self.catch_all = Some(
                            Box::new(CatchAllChild { kind: CatchAllKind::Variable(name.clone()), node }),
                        );
                    },
                }
            },
            PathSegment::Wildcard => {
                proof {
                    assert(rest[0] is Wildcard);
                    assert(depth + 1 == pattern@.len());
                }
                match self.catch_all.take() {
                    Some(mut c) => {
                        c.node.on(pattern, depth + 1, handler);
                        self.catch_all = Some(c);
                    },
                    None => {
                        let mut node = HttpRouteNode::new();
                        node.on(pattern, depth + 1, handler);
                        self.catch_all = Some(Box::new(CatchAllChild { kind: CatchAllKind::Wildcard, node }));
                    },
                }
            },
        }
        proof {
            self.lemma_table_after_step(&before, rest, handler);
        }
    }
}

/// The router: a route tree for every method, and what answers a request
/// that no route matches.
pub struct HttpRouter {
    roots: Vec<HttpRouteNode<dyn HttpRouteHandler>>,
    not_found_handler: Option<Box<dyn HttpRouteHandler>>,
}

/// The response to a request that nothing matches and nobody else answers:
/// status 404, no content, no headers.
pub open spec fn default_not_found() -> HttpResponseView {
    HttpResponseView { status_code: StatusCode::_404, ..HttpResponseView::empty() }
}

impl HttpRouter {
    /// The invariant of the router: every method has its tree, the trees are
    /// well-formed, and every handler can be invoked on every request.
    pub closed spec fn wf(&self) -> bool {
        &&& self.roots@.len() == 5
        &&& forall|i: int| 0 <= i < 5 ==> (#[trigger] self.roots@[i]).wf()
        &&& match self.not_found_handler {
            Some(h) => accepts_all(h),
            None => true,
        }
    }

    /// The route tree of `method`, as a table.
    pub closed spec fn table(&self, method: HttpMethod) -> RouteTable {
        self.roots@[method.spec_index()].table()
    }

    /// What answers a request that no route matches, if it was set.
    pub closed spec fn not_found(&self) -> Option<HandlerView> {
        match self.not_found_handler {
            Some(handler) => Some(view_of(handler)),
            None => None,
        }
    }

    /// Whether `path` can be registered under `method`: a `*` stands only at
    /// its end, and no node on its way has another child that is not
    /// literal than the one that `path` takes there.
    pub open spec fn admits(&self, method: HttpMethod, path: Seq<char>) -> bool {
        self.table(method).admits(pattern_of(path))
    }

    /// What resolution gives for a request under `method` for `path`.
    pub open spec fn resolution(&self, method: HttpMethod, path: Seq<char>) -> Option<
        RouteMatch,
    > {
        self.table(method).resolve(path_segments(path))
    }

    /// Whether `response` may answer `request` where no route matches: it
    /// comes from the handler that was set for that, and is the plain 404
    /// where none was set.
    pub open spec fn answers_not_found(&self, request: HttpRequest, response: HttpResponse) -> bool {
        match self.not_found() {
            Some(handler) => (handler.answers)(request, response),
            None => response@ == default_not_found(),
        }
    }

    /// Whether `response` may answer `request`: it comes from the handler
    /// of the route that `request` resolves to, invoked on the request with
    /// the bound route parameters added, and else from `answers_not_found`.
    pub open spec fn answers(&self, request: HttpRequest, response: HttpResponse) -> bool {
        match self.resolution(request.method, request.path@) {
            Some(found) => exists|routed: HttpRequest|
                #![trigger routed@]
                routed@ == request@.with_route_params(found.params) && (found.handler.answers)(
                    routed,
                    response,
                ),
            None => self.answers_not_found(request, response),
        }
    }

    /// Whether this router has the routes and the not-found handler of
    /// `before`.
    pub open spec fn same_routes(&self, before: &HttpRouter) -> bool {
        &&& self.not_found() == before.not_found()
        &&& forall|method: HttpMethod| #[trigger] self.table(method) == before.table(method)
    }

    /// Whether this router is `before` after `handler` was registered under
    /// `method` for `path`: that route is there, and nothing else has
    /// changed.
    pub open spec fn has_registered(
        &self,
        before: &HttpRouter,
        method: HttpMethod,
        path: Seq<char>,
        handler: HandlerView,
    ) -> bool {
        &&& self.not_found() == before.not_found()
        &&& self.table(method) == before.table(method).with_route(pattern_of(path), handler)
        &&& forall|other: HttpMethod| other != method ==> #[trigger] self.table(other) == before.table(other)
    }

    /// The tables of a well-formed router are well-formed, and their
    /// handlers can be invoked on every request.
    pub proof fn lemma_tables_wf(&self, method: HttpMethod)
        requires
            self.wf(),
        ensures
            self.table(method).wf(),
            self.table(method).accepts_all(),
    {
        self.roots@[method.spec_index()].lemma_table_wf();
    }

    /// A route that is registered under one method is not seen under
    /// another: every request under another method resolves as before.
    pub proof fn lemma_other_methods_unchanged(
        &self,
        before: &HttpRouter,
        method: HttpMethod,
        path: Seq<char>,
        handler: HandlerView,
        other: HttpMethod,
        requested: Seq<char>,
    )
        requires
            self.has_registered(before, method, path, handler),
            other != method,
        ensures
            self.resolution(other, requested) == before.resolution(other, requested),
    {
    }

    /// After a path of literal segments is registered under `method`, the
    /// request under `method` for that very path resolves to the new
    /// handler, with no parameter bound, whatever else is registered.
    pub proof fn lemma_registered_literal_path_resolves(
        &self,
        before: &HttpRouter,
        method: HttpMethod,
        path: Seq<char>,
        handler: HandlerView,
    )
        requires
            before.wf(),
            is_literal_path(path),
            self.has_registered(before, method, path, handler),
        ensures
            before.admits(method, path),
            self.resolution(method, path) == Some(RouteMatch { handler, params: Map::empty() }),
    {
        before.lemma_tables_wf(method);
        let texts = path_segments(path);
        assert(pattern_of(path) =~= literals(texts));
        before.table(method).lemma_registered_literal_route_resolves(texts, handler);
    }

    /// A request that no route matches gets the plain 404, without content
    /// and without headers, where no handler was set for it.
    pub proof fn lemma_unmatched_request_gets_404(&self, request: HttpRequest, response: HttpResponse)
        requires
            self.resolution(request.method, request.path@) is None,
            self.not_found() is None,
            self.answers(request, response),
        ensures
            response@.status_code == StatusCode::_404,
            response@.content is None,
            response@.headers == Map::<Seq<char>, Seq<char>>::empty(),
    {
    }

    /// A request that no route matches is answered by the handler that was
    /// set for it.
    pub proof fn lemma_unmatched_request_gets_not_found_handler(
        &self,
        handler: HandlerView,
        request: HttpRequest,
        response: HttpResponse,
    )
        requires
            self.resolution(request.method, request.path@) is None,
            self.not_found() == Some(handler),
            self.answers(request, response),
        ensures
            (handler.answers)(request, response),
    {
    }

    /// Resolution is a function of the router and the request: two
    /// resolutions of one request against one router give the same handler
    /// and the same route parameters.
    pub proof fn lemma_resolve_twice(
        &self,
        method: HttpMethod,
        path: Seq<char>,
        first: Option<(&Box<dyn HttpRouteHandler>, StringMap)>,
        second: Option<(&Box<dyn HttpRouteHandler>, StringMap)>,
    )
        requires
            self.resolved(method, path, first),
            self.resolved(method, path, second),
        ensures
            first is Some == second is Some,
            first is Some ==> view_of(*(first->0).0) == view_of(*(second->0).0) && (first->0).1@ == (
            second->0).1@,
    {
    }

    /// Whether `found` is what `resolve` gives for a request under `method`
    /// for `path`.
    pub open spec fn resolved(
        &self,
        method: HttpMethod,
        path: Seq<char>,
        found: Option<(&Box<dyn HttpRouteHandler>, StringMap)>,
    ) -> bool {
        match found {
            Some((handler, params)) => self.resolution(method, path) == Some(
                RouteMatch { handler: view_of(*handler), params: params@ },
            ) && accepts_all(*handler),
            None => self.resolution(method, path) is None,
        }
    }

    /// A router without routes.
    pub fn new() -> (router: HttpRouter)
        ensures
            router.wf(),
            forall|method: HttpMethod| #[trigger] router.table(method) == RouteTable::empty(),
            router.not_found() is None,
    {
        let mut roots: Vec<HttpRouteNode<dyn HttpRouteHandler>> = Vec::new();
        let methods = HttpMethod::all();
        let mut i: usize = 0;
        while i < methods.len()
            invariant
                i <= methods@.len(),
                methods@.len() == 5,
                roots@.len() == i,
                forall|j: int| 0 <= j < i ==> (#[trigger] roots@[j]).wf() && roots@[j].table()
                    == RouteTable::empty(),
            decreases methods@.len() - i,
        {
            roots.push(HttpRouteNode::new());
            i = i + 1;
        }
        HttpRouter { roots, not_found_handler: None }
    }

    /// Registers `handler` for requests under `method` that match `path`.
    /// A path that cannot be registered is refused, and the router stays as
    /// it was.
    pub fn register(
        &mut self,
        method: HttpMethod,
        path: &str,
        handler: Box<dyn HttpRouteHandler>,
    ) -> (outcome: Result<(), ConfigError>)
        requires
            old(self).wf(),
            accepts_all(handler),
        ensures
            final(self).wf(),
            outcome is Ok == old(self).admits(method, path@),
            outcome is Ok ==> final(self).has_registered(old(self), method, path@, view_of(handler)),
            outcome is Err ==> final(self).same_routes(old(self)),
            outcome is Err ==> outcome->Err_0 == if wildcard_is_last(pattern_of(path@)) {
                ConfigError::ConflictingSegment
            } else {
                ConfigError::WildcardNotLast
            },
    {
        let steps = pattern(path);
        proof {
            assert(segment_views(steps@).skip(0) =~= segment_views(steps@));
        }
        if !has_wildcard_last(&steps) {
            return Err(ConfigError::WildcardNotLast);
        }
        let i = method.index();
        if !self.roots[i].admits(&steps, 0) {
            return Err(ConfigError::ConflictingSegment);
        }
        self.roots[i].on(&steps, 0, handler);
        proof {
            assert(self.table(method) =~~= old(self).table(method).with_route(
                pattern_of(path@),
                view_of(handler),
            ));
            assert forall|other: HttpMethod| other != method implies #[trigger] self.table(other)
                == old(self).table(other) by {
                assert(other.spec_index() != method.spec_index());
            }
        }
        Ok(())
    }

    /// Whether `path` can be registered under `method`.
    pub fn can_register(&self, method: HttpMethod, path: &str) -> (ok: bool)
        requires
            self.wf(),
        ensures
            ok == self.admits(method, path@),
    {
        let steps = pattern(path);
        proof {
            assert(segment_views(steps@).skip(0) =~= segment_views(steps@));
        }
        has_wildcard_last(&steps) && self.roots[method.index()].admits(&steps, 0)
    }

    /// Registers `handler` for requests under `method` that match `path`,
    /// which must be a path that can be registered.
    pub fn on(&mut self, method: HttpMethod, path: &str, handler: Box<dyn HttpRouteHandler>)
        requires
            old(self).wf(),
            accepts_all(handler),
            old(self).admits(method, path@),
        ensures
            final(self).wf(),
            final(self).has_registered(old(self), method, path@, view_of(handler)),
    {
        let outcome = self.register(method, path, handler);
        proof {
            assert(outcome is Ok);
            assert(self.table(method) =~~= old(self).table(method).with_route(
                pattern_of(path@),
                view_of(handler),
            ));
        }
    }

    /// The handler that a request under `method` for `path` resolves to,
    /// with the values bound to the variables of its route.
    pub fn resolve(&self, method: HttpMethod, path: &str) -> (found: Option<
        (&Box<dyn HttpRouteHandler>, StringMap),
    >)
        requires
            self.wf(),
        ensures
            self.resolved(method, path@, found),
    {
        let parts = segments(path);
        self.roots[method.index()].resolve(&parts)
    }

    /// Answers `http_request`: by the handler of the route that it resolves
    /// to, and where there is none as `handle_not_found` does.
    pub fn handle(&self, http_request: HttpRequest) -> (response: HttpResponse)
        requires
            self.wf(),
        ensures
            self.answers(http_request, response),
    {
        match self.resolve(http_request.method, http_request.path.as_str()) {
            Some((handler, params)) => {
                let mut routed = http_request;
                routed.route_params.extend(&params);
                let response = handler.invoke(routed);
                proof {
                    let found = self.resolution(http_request.method, http_request.path@)->0;
                    assert(routed@ == http_request@.with_route_params(found.params));
                    assert((found.handler.answers)(routed, response));
                }
                response
            },
            None => self.handle_not_found(http_request),
        }
    }

    /// Answers a request that no route matches: by the handler set for
    /// that, and with a plain 404 where none was set.
    pub fn handle_not_found(&self, http_request: HttpRequest) -> (response: HttpResponse)
        requires
            self.wf(),
        ensures
            self.answers_not_found(http_request, response),
    {
        match &self.not_found_handler {
            Some(not_found_handler) => not_found_handler.invoke(http_request),
            None => HttpResponse::new().not_found(),
        }
    }

    /// Sets what answers a request that no route matches. The last one set
    /// counts.
    pub fn on_not_found(&mut self, not_found_handler: Box<dyn HttpRouteHandler>)
        requires
            old(self).wf(),
            accepts_all(not_found_handler),
        ensures
            final(self).wf(),
            final(self).not_found() == Some(view_of(not_found_handler)),
            forall|method: HttpMethod| #[trigger] final(self).table(method) == old(self).table(method),
    {
        self.not_found_handler = Some(not_found_handler);
    }
}

impl Default for HttpRouter {
    fn default() -> (router: HttpRouter)
        ensures
            router.wf(),
            forall|method: HttpMethod| #[trigger] router.table(method) == RouteTable::empty(),
            router.not_found() is None,
    {
        HttpRouter::new()
    }
}

} // verus!
