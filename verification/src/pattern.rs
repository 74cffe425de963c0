//! Path patterns and their compiler.
//!
//! A pattern is written `("/" segment)* sub_route? trailing_slash?`: a
//! segment is literal text or `:` followed by an optional identifier, a
//! sub-route capture is `..` followed by an optional identifier and may
//! only stand last, and a final `/` marks a trailing slash (it may not
//! follow a sub-route capture). The compiler runs once, at table
//! construction; a request path never goes through it.

use vstd::prelude::*;
use crate::locales::RouteLocales;
use crate::text::split_char;
use crate::text::split_str;
use crate::text::lemma_split_char_len;

verus! {

/// One fixed segment of a pattern: literal text, or a parameter with an
/// optional field name.
#[derive(Debug, Clone, PartialEq, Eq)]
pub enum PathComponent {
    Static(String),
    Param(Option<String>),
}

/// A trailing sub-route capture: unnamed, or bound to a named field.
#[derive(Debug, Clone, PartialEq, Eq)]
pub enum SubRoute {
    Unnamed,
    Named(String),
}

/// A compiled path pattern.
#[derive(Debug, Clone, PartialEq, Eq)]
pub struct Path {
    pub components: Vec<PathComponent>,
    pub sub_route: Option<SubRoute>,
    pub trailing_slash: bool,
}

/// A pattern together with the locale set it is declared for.
#[derive(Debug, Clone, PartialEq, Eq)]
pub struct LocalizedRoute {
    pub path: Path,
    pub locales: RouteLocales,
}

/// Mathematical model of a fixed segment.
pub enum ComponentModel {
    Literal(Seq<char>),
    Param(Option<Seq<char>>),
}

/// Mathematical model of a sub-route capture.
pub enum SubModel {
    Unnamed,
    Named(Seq<char>),
}

/// Mathematical model of a pattern.
#[verifier::ext_equal]
pub struct PathModel {
    pub components: Seq<ComponentModel>,
    pub sub_route: Option<SubModel>,
    pub trailing_slash: bool,
}

/// Mathematical model of a localized pattern.
#[verifier::ext_equal]
pub struct LocRouteModel {
    pub path: PathModel,
    pub locales: Option<Seq<Seq<char>>>,
}

impl View for PathComponent {
    type V = ComponentModel;

    open spec fn view(&self) -> ComponentModel {
        match self {
            PathComponent::Static(t) => ComponentModel::Literal(t@),
            PathComponent::Param(n) => ComponentModel::Param(
                match n {
                    Option::None => None,
                    Option::Some(s) => Some(s@),
                },
            ),
        }
    }
}

impl DeepView for PathComponent {
    type V = ComponentModel;

    open spec fn deep_view(&self) -> ComponentModel {
        self.view()
    }
}

impl View for SubRoute {
    type V = SubModel;

    open spec fn view(&self) -> SubModel {
        match self {
            SubRoute::Unnamed => SubModel::Unnamed,
            SubRoute::Named(s) => SubModel::Named(s@),
        }
    }
}

impl View for Path {
    type V = PathModel;

    open spec fn view(&self) -> PathModel {
        PathModel {
            components: self.components.deep_view(),
            sub_route: match &self.sub_route {
                Option::None => None,
                Option::Some(sr) => Some(sr@),
            },
            trailing_slash: self.trailing_slash,
        }
    }
}

impl View for LocalizedRoute {
    type V = LocRouteModel;

    open spec fn view(&self) -> LocRouteModel {
        LocRouteModel { path: self.path@, locales: self.locales@ }
    }
}

/// Whether `c` may start an identifier: an ASCII letter or `_`.
pub open spec fn is_ident_start(c: char) -> bool {
    (65 <= c as u32 && c as u32 <= 90) || (97 <= c as u32 && c as u32 <= 122) || c == '_'
}

/// Whether `c` may continue an identifier: a start character or a digit.
pub open spec fn is_ident_char(c: char) -> bool {
    is_ident_start(c) || (48 <= c as u32 && c as u32 <= 57)
}

/// Whether `s` is a valid identifier.
pub open spec fn is_ident(s: Seq<char>) -> bool {
    s.len() > 0 && is_ident_start(s[0]) && forall|i: int| 1 <= i < s.len() ==> is_ident_char(s[i])
}

/// Whether a piece is a sub-route marker (`..`, possibly named).
pub open spec fn is_sub_marker(p: Seq<char>) -> bool {
    p.len() >= 2 && p[0] == '.' && p[1] == '.'
}

/// What one fixed piece of a pattern denotes, or `None` when it is not a
/// valid segment (in particular when it is a sub-route marker).
pub open spec fn spec_classify_component(p: Seq<char>) -> Option<ComponentModel> {
    if p.len() == 0 {
        None
    } else if p[0] == ':' {
        let name = p.drop_first();
        if name.len() == 0 {
            Some(ComponentModel::Param(None))
        } else if is_ident(name) {
            Some(ComponentModel::Param(Some(name)))
        } else {
            None
        }
    } else if is_sub_marker(p) {
        None
    } else {
        Some(ComponentModel::Literal(p))
    }
}

/// What a sub-route marker denotes, or `None` when its name is invalid.
pub open spec fn spec_classify_sub(p: Seq<char>) -> Option<SubModel> {
    let name = p.skip(2);
    if name.len() == 0 {
        Some(SubModel::Unnamed)
    } else if is_ident(name) {
        Some(SubModel::Named(name))
    } else {
        None
    }
}

/// What a list of fixed pieces denotes, or `None` when any piece is
/// invalid.
pub open spec fn spec_classify_components(ps: Seq<Seq<char>>) -> Option<Seq<ComponentModel>>
    decreases ps.len(),
{
    if ps.len() == 0 {
        Some(Seq::empty())
    } else {
        match (spec_classify_components(ps.drop_last()), spec_classify_component(ps.last())) {
            (Option::Some(rest), Option::Some(c)) => Some(rest.push(c)),
            _ => None,
        }
    }
}

/// The pattern a specification string denotes, or `None` when the string
/// breaks the grammar.
pub open spec fn spec_parse_path(s: Seq<char>) -> Option<PathModel> {
    if s.len() == 0 || s[0] != '/' {
        None
    } else {
        let ps = split_char(s.drop_first(), '/');
        if ps.len() == 1 && ps[0].len() == 0 {
            Some(PathModel { components: Seq::empty(), sub_route: None, trailing_slash: true })
        } else {
            let trailing = ps.last().len() == 0;
            let body = if trailing {
                ps.drop_last()
            } else {
                ps
            };
            if body.len() > 0 && is_sub_marker(body.last()) {
                if trailing {
                    None
                } else {
                    match (
                        spec_classify_components(body.drop_last()),
                        spec_classify_sub(body.last()),
                    ) {
                        (Option::Some(cs), Option::Some(sm)) => Some(
                            PathModel {
                                components: cs,
                                sub_route: Some(sm),
                                trailing_slash: false,
                            },
                        ),
                        _ => None,
                    }
                }
            } else {
                match spec_classify_components(body) {
                    Option::Some(cs) => Some(
                        PathModel { components: cs, sub_route: None, trailing_slash: trailing },
                    ),
                    Option::None => None,
                }
            }
        }
    }
}

/// A piece that does not classify poisons the whole list.
proof fn lemma_classify_none(ps: Seq<Seq<char>>, i: int)
    requires
        0 <= i < ps.len(),
        spec_classify_component(ps[i]) is None,
    ensures
        spec_classify_components(ps) is None,
    decreases ps.len(),
{
    if i < ps.len() - 1 {
        assert(ps.drop_last()[i] == ps[i]);
        lemma_classify_none(ps.drop_last(), i);
    }
}

/// A syntax error in a path specification, anchored to the index of the
/// offending `/`-separated piece (0 for a malformed start).
#[derive(Debug, Clone, PartialEq, Eq)]
pub struct PathSyntaxError {
    pub piece: usize,
}

/// Whether `s` is a valid identifier.
fn is_ident_str(s: &str) -> (r: bool)
    ensures
        r == is_ident(s@),
{
    let n = s.unicode_len();
    if n == 0 {
        return false;
    }
    let c0 = s.get_char(0);
    if !((65 <= c0 as u32 && c0 as u32 <= 90) || (97 <= c0 as u32 && c0 as u32 <= 122) || c0
        == '_') {
        assert(!is_ident_start(s@[0]));
        return false;
    }
    let mut i: usize = 1;
    while i < n
        invariant
            1 <= i <= n,
            n == s@.len(),
            is_ident_start(s@[0]),
            forall|j: int| 1 <= j < i ==> is_ident_char(s@[j]),
        decreases n - i,
    {
        let c = s.get_char(i);
        if !((65 <= c as u32 && c as u32 <= 90) || (97 <= c as u32 && c as u32 <= 122) || c == '_'
            || (48 <= c as u32 && c as u32 <= 57)) {
            assert(!is_ident_char(s@[i as int]));
            return false;
        }
        i += 1;
    }
    true
}

/// Whether a piece is a sub-route marker.
fn is_sub_marker_str(p: &str) -> (r: bool)
    ensures
        r == is_sub_marker(p@),
{
    let n = p.unicode_len();
    n >= 2 && p.get_char(0) == '.' && p.get_char(1) == '.'
}

/// Classify one fixed piece of a pattern.
fn classify_component_str(p: &str) -> (r: Option<PathComponent>)
    ensures
        r matches Some(c) ==> spec_classify_component(p@) == Some(c@),
        r is None ==> spec_classify_component(p@) is None,
{
    let n = p.unicode_len();
    if n == 0 {
        return None;
    }
    let c0 = p.get_char(0);
    if c0 == ':' {
        let name = p.substring_char(1, n);
        proof {
            assert(name@ =~= p@.drop_first());
        }
        if name.unicode_len() == 0 {
            Some(PathComponent::Param(None))
        } else if is_ident_str(name) {
            Some(PathComponent::Param(Some(name.to_owned())))
        } else {
            None
        }
    } else if is_sub_marker_str(p) {
        None
    } else {
        Some(PathComponent::Static(p.to_owned()))
    }
}

/// Classify a sub-route marker piece.
fn classify_sub_str(p: &str) -> (r: Option<SubRoute>)
    requires
        is_sub_marker(p@),
    ensures
        r matches Some(sm) ==> spec_classify_sub(p@) == Some(sm@),
        r is None ==> spec_classify_sub(p@) is None,
{
    let n = p.unicode_len();
    let name = p.substring_char(2, n);
    proof {
        assert(name@ =~= p@.skip(2));
    }
    if name.unicode_len() == 0 {
        Some(SubRoute::Unnamed)
    } else if is_ident_str(name) {
        Some(SubRoute::Named(name.to_owned()))
    } else {
        None
    }
}

impl Path {
    /// Compile a path specification string; fails exactly on the strings
    /// that break the grammar, pointing at the offending piece.
    #[verifier::loop_isolation(false)]
    pub fn parse_str(input: &str) -> (r: Result<Path, PathSyntaxError>)
        ensures
            r matches Ok(p) ==> spec_parse_path(input@) == Some(p@),
            r is Err ==> spec_parse_path(input@) is None,
    {
        let n = input.unicode_len();
        if n == 0 || input.get_char(0) != '/' {
            return Err(PathSyntaxError { piece: 0 });
        }
        let rest = input.substring_char(1, n);
        proof {
            assert(rest@ =~= input@.drop_first());
        }
        let mut pieces = split_str(rest, '/');
        proof {
            lemma_split_char_len(rest@, '/');
        }
        let ghost ps = split_char(input@.drop_first(), '/');
        assert(pieces.deep_view() == ps);
        if pieces.len() == 1 && pieces[0].as_str().is_empty() {
            let p = Path { components: Vec::new(), sub_route: None, trailing_slash: true };
            proof {
                assert(ps[0] == pieces[0 as int]@);
                assert(p@.components =~= Seq::<ComponentModel>::empty());
                assert(spec_parse_path(input@) matches Some(m) && m =~= p@);
            }
            return Ok(p);
        }
        let trailing = pieces[pieces.len() - 1].as_str().is_empty();
        proof {
            assert(ps.last() == pieces[pieces.len() - 1]@);
        }
        if trailing {
            let ghost pv = pieces.deep_view();
            pieces.pop();
            proof {
                assert(pieces.deep_view() =~= pv.drop_last());
            }
        }
        let ghost body = pieces.deep_view();
        let mut sub: Option<SubRoute> = None;
        let mut had_sub = false;
        if pieces.len() > 0 && is_sub_marker_str(pieces[pieces.len() - 1].as_str()) {
            proof {
                assert(body.last() == pieces[pieces.len() - 1]@);
            }
            if trailing {
                return Err(PathSyntaxError { piece: pieces.len() });
            }
            let last = match pieces.pop() {
                Some(l) => l,
                None => {
                    return Err(PathSyntaxError { piece: 0 });
                },
            };
            proof {
                assert(pieces.deep_view() =~= body.drop_last());
            }
            match classify_sub_str(last.as_str()) {
                Some(sm) => {
                    sub = Some(sm);
                    had_sub = true;
                },
                None => {
                    return Err(PathSyntaxError { piece: pieces.len() });
                },
            }
        }
        let ghost fixed = pieces.deep_view();
        let mut comps: Vec<PathComponent> = Vec::new();
        let mut k: usize = 0;
        while k < pieces.len()
            invariant
                0 <= k <= pieces.len(),
                pieces.deep_view() == fixed,
                spec_classify_components(fixed.take(k as int)) == Some(comps.deep_view()),
            decreases pieces.len() - k,
        {
            proof {
                assert(fixed[k as int] == pieces[k as int]@);
            }
            match classify_component_str(pieces[k].as_str()) {
                Some(c) => {
                    let ghost prev = comps.deep_view();
                    comps.push(c);
                    proof {
                        assert(comps.deep_view() =~= prev.push(c@));
                        assert(fixed.take(k + 1 as int).drop_last() =~= fixed.take(k as int));
                        assert(fixed.take(k + 1 as int).last() == fixed[k as int]);
                    }
                },
                None => {
                    proof {
                        lemma_classify_none(fixed, k as int);
                    }
                    return Err(PathSyntaxError { piece: k });
                },
            }
            k += 1;
        }
        proof {
            assert(fixed.take(fixed.len() as int) =~= fixed);
        }
        let p = Path { components: comps, sub_route: sub, trailing_slash: trailing };
        proof {
            if had_sub {
                assert(body.len() > 0 && is_sub_marker(body.last()));
                assert(fixed =~= body.drop_last());
            }
            assert(spec_parse_path(input@) == Some(p@));
        }
        Ok(p)
    }
}

/// Whether a segment is a named parameter.
pub open spec fn component_is_named_param(c: ComponentModel) -> bool {
    c matches ComponentModel::Param(Some(_))
}

/// Whether a pattern binds any unnamed parameter or unnamed sub-route.
pub open spec fn spec_has_unnamed(p: PathModel) -> bool {
    p.sub_route == Some(SubModel::Unnamed) || exists|i: int|
        0 <= i < p.components.len() && p.components[i] == ComponentModel::Param(None)
}

/// Whether a pattern binds any named parameter or named sub-route.
pub open spec fn spec_has_named(p: PathModel) -> bool {
    p.sub_route matches Some(SubModel::Named(_)) || exists|i: int|
        0 <= i < p.components.len() && #[trigger] component_is_named_param(p.components[i])
}

/// The parameter names of a component list, in order: `None` for an
/// unnamed parameter, the field name for a named one.
pub open spec fn spec_params(cs: Seq<ComponentModel>) -> Seq<Option<Seq<char>>>
    decreases cs.len(),
{
    if cs.len() == 0 {
        Seq::empty()
    } else {
        let rest = spec_params(cs.drop_last());
        match cs.last() {
            ComponentModel::Literal(_) => rest,
            ComponentModel::Param(n) => rest.push(n),
        }
    }
}

/// A pattern has at most as many parameters as components.
pub proof fn lemma_spec_params_len(cs: Seq<ComponentModel>)
    ensures
        spec_params(cs).len() <= cs.len(),
    decreases cs.len(),
{
    if cs.len() > 0 {
        lemma_spec_params_len(cs.drop_last());
    }
}

impl Path {
    /// Whether the pattern binds any unnamed parameter or unnamed
    /// sub-route.
    pub fn contains_unnamed_params_and_sub_routes(&self) -> (r: bool)
        ensures
            r == spec_has_unnamed(self@),
    {
        if let Some(SubRoute::Unnamed) = &self.sub_route {
            return true;
        }
        let mut i: usize = 0;
        while i < self.components.len()
            invariant
                0 <= i <= self.components.len(),
                forall|j: int|
                    0 <= j < i ==> self.components.deep_view()[j] != ComponentModel::Param(None),
            decreases self.components.len() - i,
        {
            proof {
                assert(self.components.deep_view()[i as int] == self.components[i as int]@);
            }
            if let PathComponent::Param(None) = &self.components[i] {
                return true;
            }
            i += 1;
        }
        false
    }

    /// Whether the pattern binds any named parameter or named sub-route.
    pub fn contains_named_params_and_sub_routes(&self) -> (r: bool)
        ensures
            r == spec_has_named(self@),
    {
        if let Some(SubRoute::Named(_name)) = &self.sub_route {
            return true;
        }
        let mut i: usize = 0;
        while i < self.components.len()
            invariant
                0 <= i <= self.components.len(),
                forall|j: int|
                    0 <= j < i ==> !component_is_named_param(self.components.deep_view()[j]),
            decreases self.components.len() - i,
        {
            proof {
                assert(self.components.deep_view()[i as int] == self.components[i as int]@);
            }
            if let PathComponent::Param(Some(_name)) = &self.components[i] {
                assert(component_is_named_param(self@.components[i as int]));
                return true;
            }
            i += 1;
        }
        false
    }

    /// The parameter names of the pattern, in order.
    pub fn params(&self) -> (r: Vec<Option<String>>)
        ensures
            r.deep_view() == spec_params(self@.components),
    {
        let mut out: Vec<Option<String>> = Vec::new();
        let mut i: usize = 0;
        while i < self.components.len()
            invariant
                0 <= i <= self.components.len(),
                out.deep_view() == spec_params(self.components.deep_view().take(i as int)),
            decreases self.components.len() - i,
        {
            let ghost cv = self.components.deep_view();
            proof {
                assert(cv[i as int] == self.components[i as int]@);
                assert(cv.take(i + 1 as int).drop_last() =~= cv.take(i as int));
                assert(cv.take(i + 1 as int).last() == cv[i as int]);
            }
            match &self.components[i] {
                PathComponent::Static(_) => {},
                PathComponent::Param(n) => {
                    let ghost prev = out.deep_view();
                    let copy: Option<String> = match n {
                        Option::None => None,
                        Option::Some(s) => Some(s.clone()),
                    };
                    out.push(copy);
                    proof {
                        assert(out.deep_view() =~= prev.push(
                            match n {
                                Option::None => None,
                                Option::Some(s) => Some(s@),
                            },
                        ));
                    }
                },
            }
            i += 1;
        }
        proof {
            assert(self.components.deep_view().take(self.components.len() as int)
                =~= self.components.deep_view());
        }
        out
    }

    /// Whether the pattern binds a parameter under the given name.
    pub fn has_named_param(&self, expected_name: &str) -> (r: bool)
        ensures
            r == exists|i: int|
                0 <= i < self@.components.len() && self@.components[i] == ComponentModel::Param(
                    Some(expected_name@),
                ),
    {
        let mut i: usize = 0;
        while i < self.components.len()
            invariant
                0 <= i <= self.components.len(),
                forall|j: int|
                    0 <= j < i ==> self.components.deep_view()[j] != ComponentModel::Param(
                        Some(expected_name@),
                    ),
            decreases self.components.len() - i,
        {
            proof {
                assert(self.components.deep_view()[i as int] == self.components[i as int]@);
            }
            if let PathComponent::Param(Some(name)) = &self.components[i] {
                if name.eq(&expected_name.to_owned()) {
                    return true;
                }
            }
            i += 1;
        }
        false
    }
}

} // verus!
