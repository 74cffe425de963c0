//! The routing engine: a compiled, read-only table of route cases per
//! route-value type, a matcher that resolves a URL to a route value, and a
//! generator that renders a route value back into a URL.
//!
//! Route-value types are data: table 0 is the root type, and a case that
//! delegates to a sub-route names the table of the nested type. A
//! sub-route target always lies strictly beyond its own table, so route
//! graphs are acyclic by construction and matching terminates.

use vstd::prelude::*;
use crate::locales::AcceptedLocales;
use crate::locales::RouteLocales;
use crate::locales::spec_accept;
use crate::locales::spec_narrow;
use crate::locales::spec_resulting;
use crate::pattern::ComponentModel;
use crate::pattern::LocRouteModel;
use crate::pattern::LocalizedRoute;
use crate::pattern::Path;
use crate::pattern::PathModel;
use crate::pattern::PathSyntaxError;
use crate::pattern::SubModel;
use crate::pattern::spec_params;
use crate::pattern::spec_parse_path;
use crate::percent::percent_decoded;
use crate::query::QueryArg;
use crate::query::QueryParam;
use crate::query::QueryParamModel;
use crate::query::spec_emit_params;
use crate::query::spec_parse_query;
use crate::query::spec_resolve_params;
use crate::text::find_char;
use crate::text::join_char;
use crate::text::split_char;
use crate::text::split_str;
use crate::text::spec_unnamed_param_name;

verus! {

/// The field shape of a route case: no fields, a number of positional
/// fields, or a set of named fields.
#[derive(Debug, Clone, PartialEq, Eq)]
pub enum FieldShape {
    NoFields,
    PositionalFields(usize),
    NamedFields(Vec<String>),
}

/// Mathematical model of a field shape.
pub enum ShapeModel {
    NoFields,
    PositionalFields(int),
    NamedFields(Seq<Seq<char>>),
}

impl View for FieldShape {
    type V = ShapeModel;

    open spec fn view(&self) -> ShapeModel {
        match self {
            FieldShape::NoFields => ShapeModel::NoFields,
            FieldShape::PositionalFields(n) => ShapeModel::PositionalFields(*n as int),
            FieldShape::NamedFields(names) => ShapeModel::NamedFields(names.deep_view()),
        }
    }
}

/// One compiled route case: its localized patterns, its declared query
/// parameters, and the table of the nested type when it delegates.
#[derive(Debug, Clone, PartialEq, Eq)]
pub struct Route {
    pub name: String,
    pub shape: FieldShape,
    pub localized_routes: Vec<LocalizedRoute>,
    pub query_params: Vec<QueryParam>,
    pub sub_target: Option<usize>,
}

/// Mathematical model of a route case.
#[verifier::ext_equal]
pub struct RouteModel {
    pub name: Seq<char>,
    pub shape: ShapeModel,
    pub localized_routes: Seq<LocRouteModel>,
    pub query_params: Seq<QueryParamModel>,
    pub sub_target: Option<int>,
}

impl View for Route {
    type V = RouteModel;

    open spec fn view(&self) -> RouteModel {
        RouteModel {
            name: self.name@,
            shape: self.shape@,
            localized_routes: self.localized_routes.deep_view(),
            query_params: self.query_params.deep_view(),
            sub_target: match self.sub_target {
                Option::None => None,
                Option::Some(t) => Some(t as int),
            },
        }
    }
}

impl DeepView for Route {
    type V = RouteModel;

    open spec fn deep_view(&self) -> RouteModel {
        self.view()
    }
}

impl DeepView for LocalizedRoute {
    type V = LocRouteModel;

    open spec fn deep_view(&self) -> LocRouteModel {
        self.view()
    }
}

/// One bound path parameter of a route value: the field name (for an
/// unnamed parameter, `p0`, `p1`, ... by position) and the bound text.
#[derive(Debug, Clone, PartialEq, Eq)]
pub struct RouteArg {
    pub name: String,
    pub value: String,
}

impl View for RouteArg {
    type V = (Seq<char>, Seq<char>);

    open spec fn view(&self) -> (Seq<char>, Seq<char>) {
        (self.name@, self.value@)
    }
}

impl DeepView for RouteArg {
    type V = (Seq<char>, Seq<char>);

    open spec fn deep_view(&self) -> (Seq<char>, Seq<char>) {
        self.view()
    }
}

/// A parsed route value: the index of its case in its table, the bound
/// path parameters in pattern order, the nested value when the matched
/// pattern delegates, and the query-parameter bindings.
#[derive(Debug, PartialEq, Eq)]
pub struct RouteValue {
    pub case: usize,
    pub args: Vec<RouteArg>,
    pub sub: Option<Box<RouteValue>>,
    pub query: Vec<QueryArg>,
}

/// Mathematical model of a route value. The nested value is a sequence of
/// length at most one: empty for no sub-route.
#[verifier::ext_equal]
pub struct ValueModel {
    pub case: int,
    pub args: Seq<(Seq<char>, Seq<char>)>,
    pub sub: Seq<ValueModel>,
    pub query: Seq<(Seq<char>, Option<Seq<char>>)>,
}

/// The model of a route value.
pub open spec fn value_model(v: RouteValue) -> ValueModel
    decreases v,
{
    ValueModel {
        case: v.case as int,
        args: v.args.deep_view(),
        sub: match v.sub {
            Option::None => Seq::empty(),
            Option::Some(b) => seq![value_model(*b)],
        },
        query: v.query.deep_view(),
    }
}

impl View for RouteValue {
    type V = ValueModel;

    open spec fn view(&self) -> ValueModel {
        value_model(*self)
    }
}

/// A router: one compiled table per route-value type, table 0 being the
/// root type. Read-only once built.
#[derive(Debug, Clone, PartialEq, Eq)]
pub struct Router {
    pub tables: Vec<Vec<Route>>,
}

impl View for Router {
    type V = Seq<Seq<RouteModel>>;

    open spec fn view(&self) -> Seq<Seq<RouteModel>> {
        self.tables.deep_view()
    }
}

/// The `/`-separated segments of a request path and its trailing-slash
/// flag. A leading `/` is ignored; an empty path and `/` both have no
/// segments and a trailing slash.
pub open spec fn spec_segments(path: Seq<char>) -> (Seq<Seq<char>>, bool) {
    let stripped = if path.len() > 0 && path[0] == '/' {
        path.drop_first()
    } else {
        path
    };
    let ps = split_char(stripped, '/');
    if ps.len() == 1 && ps[0].len() == 0 {
        (Seq::empty(), true)
    } else if ps.last().len() == 0 {
        (ps.drop_last(), true)
    } else {
        (ps, false)
    }
}

/// Whether one fixed pattern segment matches one path segment: a literal
/// requires exact text equality, a parameter any non-empty segment.
pub open spec fn seg_matches(c: ComponentModel, s: Seq<char>) -> bool {
    match c {
        ComponentModel::Literal(t) => s == t,
        ComponentModel::Param(_) => s.len() > 0,
    }
}

/// Whether the fixed segments of a pattern match the leading path
/// segments position by position.
pub open spec fn fixed_match(cs: Seq<ComponentModel>, segs: Seq<Seq<char>>) -> bool {
    cs.len() <= segs.len() && forall|i: int| 0 <= i < cs.len() ==> seg_matches(cs[i], segs[i])
}

/// The capture region a sub-route pattern hands to the nested type: the
/// remaining segments rejoined, keeping the trailing slash.
pub open spec fn spec_capture(segs: Seq<Seq<char>>, fixed: int, trailing: bool) -> Seq<char> {
    join_char(segs.skip(fixed), '/') + (if trailing {
        seq!['/']
    } else {
        Seq::<char>::empty()
    })
}

/// Whether a pattern structurally matches the segmented path. Without a
/// sub-route the segment counts and the trailing slash must agree
/// exactly; with one, at least one segment must remain beyond the fixed
/// prefix and the capture region must be non-empty.
pub open spec fn pattern_matches(p: PathModel, segs: Seq<Seq<char>>, trailing: bool) -> bool {
    match p.sub_route {
        Option::None => segs.len() == p.components.len() && trailing == p.trailing_slash
            && fixed_match(p.components, segs),
        Option::Some(_) => segs.len() > p.components.len() && fixed_match(p.components, segs)
            && spec_capture(segs, p.components.len() as int, trailing).len() > 0,
    }
}

/// The flat entry list of a table: one `(case index, pattern index,
/// localized pattern)` triple per pattern, in declaration order.
pub open spec fn spec_flat(table: Seq<RouteModel>) -> Seq<(int, int, LocRouteModel)>
    decreases table.len(),
{
    if table.len() == 0 {
        Seq::empty()
    } else {
        spec_flat(table.drop_last()) + Seq::new(
            table.last().localized_routes.len(),
            |j: int| (table.len() - 1, j, table.last().localized_routes[j]),
        )
    }
}

/// The entries whose locale set the accepted set admits and whose pattern
/// structurally matches the path, in declaration order.
pub open spec fn spec_candidates(
    flat: Seq<(int, int, LocRouteModel)>,
    segs: Seq<Seq<char>>,
    trailing: bool,
    accepted: Option<Seq<Seq<char>>>,
) -> Seq<(int, int, LocRouteModel)>
    decreases flat.len(),
{
    if flat.len() == 0 {
        Seq::empty()
    } else {
        let rest = spec_candidates(flat.drop_last(), segs, trailing, accepted);
        let e = flat.last();
        if spec_accept(accepted, e.2.locales) && pattern_matches(e.2.path, segs, trailing) {
            rest.push(e)
        } else {
            rest
        }
    }
}

/// The specificity rank of a pattern at a path position: 0 for a literal,
/// 1 for a parameter, 2 for the capture region.
pub open spec fn rank_at(p: PathModel, i: int) -> int {
    if 0 <= i < p.components.len() {
        match p.components[i] {
            ComponentModel::Literal(_) => 0,
            ComponentModel::Param(_) => 1,
        }
    } else {
        2
    }
}

/// Whether `p1` is strictly more specific than `p2` over the first `n`
/// path positions: at the first position where their ranks differ, `p1`
/// ranks lower.
pub open spec fn strictly_better(p1: PathModel, p2: PathModel, n: int) -> bool {
    exists|i: int|
        0 <= i < n && #[trigger] rank_at(p1, i) < rank_at(p2, i) && (forall|j: int|
            0 <= j < i ==> rank_at(p1, j) == rank_at(p2, j))
}

/// The winning candidate: the earliest-declared entry that no entry is
/// strictly more specific than.
pub open spec fn spec_best(cands: Seq<(int, int, LocRouteModel)>, n: int) -> (int, int, LocRouteModel)
    decreases cands.len(),
{
    if cands.len() <= 1 {
        cands[0]
    } else {
        let b = spec_best(cands.drop_first(), n);
        if strictly_better(b.2.path, cands[0].2.path, n) {
            b
        } else {
            cands[0]
        }
    }
}

/// The name under which the parameter at component index `i` binds: its
/// declared name, or `p0`, `p1`, ... by parameter position.
pub open spec fn spec_arg_name(cs: Seq<ComponentModel>, i: int) -> Seq<char> {
    match cs[i] {
        ComponentModel::Literal(_) => Seq::empty(),
        ComponentModel::Param(n) => match n {
            Option::Some(name) => name,
            Option::None => spec_unnamed_param_name(spec_params(cs.take(i)).len() as int),
        },
    }
}

/// The bound parameters of a matched pattern: one `(name, text)` pair per
/// parameter, in pattern order, the text percent-decoded when asked;
/// `None` when any decoding fails.
pub open spec fn spec_bind_args(
    cs: Seq<ComponentModel>,
    segs: Seq<Seq<char>>,
    decode: bool,
) -> Option<Seq<(Seq<char>, Seq<char>)>>
    decreases cs.len(),
{
    if cs.len() == 0 {
        Some(Seq::empty())
    } else {
        match spec_bind_args(cs.drop_last(), segs, decode) {
            Option::None => None,
            Option::Some(rest) => {
                let i = cs.len() - 1;
                match cs.last() {
                    ComponentModel::Literal(_) => Some(rest),
                    ComponentModel::Param(_) => {
                        let raw = segs[i];
                        if decode {
                            match percent_decoded(raw) {
                                Option::Some(d) => Some(rest.push((spec_arg_name(cs, i), d))),
                                Option::None => None,
                            }
                        } else {
                            Some(rest.push((spec_arg_name(cs, i), raw)))
                        }
                    },
                }
            },
        }
    }
}

/// What parsing the path against table `t` yields, under the given
/// accepted locale set and decoded query pairs: the route value and the
/// resulting locales, or `None` for no match.
pub open spec fn spec_parse_at(
    tables: Seq<Seq<RouteModel>>,
    t: int,
    path: Seq<char>,
    accepted: Option<Seq<Seq<char>>>,
    decode: bool,
    pairs: Seq<(Seq<char>, Seq<char>)>,
) -> Option<(ValueModel, Seq<Seq<char>>)>
    decreases tables.len() - t,
{
    if !(0 <= t < tables.len()) {
        None
    } else {
        let (segs, trailing) = spec_segments(path);
        let cands = spec_candidates(spec_flat(tables[t]), segs, trailing, accepted);
        if cands.len() == 0 {
            None
        } else {
            let e = spec_best(cands, segs.len() as int);
            let ci = e.0;
            let lr = e.2;
            if !(0 <= ci < tables[t].len()) {
                None
            } else {
                let route = tables[t][ci];
                match (spec_bind_args(lr.path.components, segs, decode), spec_resolve_params(
                    pairs,
                    route.query_params,
                )) {
                    (Option::Some(args), Option::Some(qargs)) => match lr.path.sub_route {
                        Option::None => Some(
                            (
                                ValueModel { case: ci, args, sub: Seq::empty(), query: qargs },
                                spec_resulting(accepted, lr.locales),
                            ),
                        ),
                        Option::Some(_) => match route.sub_target {
                            Option::None => None,
                            Option::Some(tgt) => if !(t < tgt && tgt < tables.len()) {
                                None
                            } else {
                                let capture = spec_capture(
                                    segs,
                                    lr.path.components.len() as int,
                                    trailing,
                                );
                                match spec_parse_at(
                                    tables,
                                    tgt,
                                    capture,
                                    spec_narrow(accepted, lr.locales),
                                    decode,
                                    pairs,
                                ) {
                                    Option::None => None,
                                    Option::Some((subv, sublocs)) => Some(
                                        (
                                            ValueModel {
                                                case: ci,
                                                args,
                                                sub: seq![subv],
                                                query: qargs,
                                            },
                                            sublocs,
                                        ),
                                    ),
                                }
                            },
                        },
                    },
                    _ => None,
                }
            }
        }
    }
}

/// The entry triples that a list of `(case, pattern)` index pairs denotes
/// in a table.
pub open spec fn entries_view(s: Seq<(usize, usize)>, table: Seq<RouteModel>) -> Seq<
    (int, int, LocRouteModel),
> {
    Seq::new(
        s.len(),
        |k: int| (s[k].0 as int, s[k].1 as int, table[s[k].0 as int].localized_routes[s[k].1 as int]),
    )
}

/// Split a request path into its segments and trailing-slash flag.
#[verifier::loop_isolation(false)]
fn segment_path(path: &str) -> (r: (Vec<String>, bool))
    ensures
        r.0.deep_view() == spec_segments(path@).0,
        r.1 == spec_segments(path@).1,
{
    let n = path.unicode_len();
    let stripped = if n > 0 && path.get_char(0) == '/' {
        let s = path.substring_char(1, n);
        proof {
            assert(s@ =~= path@.drop_first());
        }
        s
    } else {
        path
    };
    let mut pieces = split_str(stripped, '/');
    proof {
        crate::text::lemma_split_char_len(stripped@, '/');
    }
    let ghost ps = split_char(stripped@, '/');
    if pieces.len() == 1 && pieces[0].as_str().is_empty() {
        proof {
            assert(ps[0] == pieces[0 as int]@);
        }
        let empty: Vec<String> = Vec::new();
        proof {
            assert(empty.deep_view() =~= Seq::<Seq<char>>::empty());
        }
        return (empty, true);
    }
    let trailing = pieces[pieces.len() - 1].as_str().is_empty();
    proof {
        assert(ps.last() == pieces[pieces.len() - 1]@);
    }
    if trailing {
        let ghost pv = pieces.deep_view();
        pieces.pop();
        proof {
            assert(pieces.deep_view() =~= pv.drop_last());
        }
    }
    (pieces, trailing)
}

/// Append one `(case, pattern)` pair per pattern of the case at `ci`.
fn push_case_entries(out: &mut Vec<(usize, usize)>, ci: usize, n: usize)
    ensures
        final(out)@ =~= old(out)@ + Seq::new(n as nat, |j: int| (ci, j as usize)),
{
    let mut li: usize = 0;
    while li < n
        invariant
            0 <= li <= n,
            out@ =~= old(out)@ + Seq::new(li as nat, |j: int| (ci, j as usize)),
        decreases n - li,
    {
        out.push((ci, li));
        li += 1;
    }
}

/// The flat entry list of a table, as index pairs in declaration order.
#[verifier::loop_isolation(false)]
fn flat_entries(table: &Vec<Route>) -> (r: Vec<(usize, usize)>)
    ensures
        forall|k: int|
            0 <= k < r@.len() ==> (#[trigger] r@[k]).0 < table@.len() && r@[k].1
                < table@[r@[k].0 as int].localized_routes@.len(),
        entries_view(r@, table.deep_view()) == spec_flat(table.deep_view()),
{
    let ghost tv = table.deep_view();
    let mut out: Vec<(usize, usize)> = Vec::new();
    let mut ci: usize = 0;
    proof {
        assert(entries_view(out@, tv) =~= spec_flat(tv.take(0)));
    }
    while ci < table.len()
        invariant
            0 <= ci <= table.len(),
            forall|k: int|
                0 <= k < out@.len() ==> (#[trigger] out@[k]).0 < ci && out@[k].1
                    < table@[out@[k].0 as int].localized_routes@.len(),
            entries_view(out@, tv) =~= spec_flat(tv.take(ci as int)),
        decreases table.len() - ci,
    {
        let n = table[ci].localized_routes.len();
        proof {
            assert(tv[ci as int] == table@[ci as int]@);
            assert(tv[ci as int].localized_routes.len() == n);
        }
        push_case_entries(&mut out, ci, n);
        proof {
            assert(tv.take(ci + 1 as int).drop_last() =~= tv.take(ci as int));
            assert(tv.take(ci + 1 as int).last() == tv[ci as int]);
            assert(entries_view(out@, tv) =~= spec_flat(tv.take(ci + 1 as int)));
        }
        ci += 1;
    }
    proof {
        assert(tv.take(table.len() as int) =~= tv);
    }
    out
}

/// Whether the fixed segments of a pattern match the leading path
/// segments.
#[verifier::loop_isolation(false)]
fn fixed_match_exec(cs: &Vec<crate::pattern::PathComponent>, segs: &Vec<String>) -> (r: bool)
    requires
        cs@.len() <= segs@.len(),
    ensures
        r == fixed_match(cs.deep_view(), segs.deep_view()),
{
    let mut i: usize = 0;
    while i < cs.len()
        invariant
            0 <= i <= cs.len(),
            forall|j: int| 0 <= j < i ==> seg_matches(cs.deep_view()[j], segs.deep_view()[j]),
        decreases cs.len() - i,
    {
        proof {
            assert(cs.deep_view()[i as int] == cs[i as int]@);
            assert(segs.deep_view()[i as int] == segs[i as int]@);
        }
        match &cs[i] {
            crate::pattern::PathComponent::Static(t) => {
                if !t.eq(&segs[i]) {
                    return false;
                }
            },
            crate::pattern::PathComponent::Param(_) => {
                if segs[i].as_str().is_empty() {
                    return false;
                }
            },
        }
        i += 1;
    }
    true
}

/// The length of a joined piece list is positive when there are two or
/// more pieces.
proof fn lemma_join_len(ps: Seq<Seq<char>>, c: char)
    requires
        ps.len() >= 2,
    ensures
        join_char(ps, c).len() >= 1,
{
}

/// Whether a pattern structurally matches the segmented path.
fn pattern_match_exec(p: &Path, segs: &Vec<String>, trailing: bool) -> (r: bool)
    ensures
        r == pattern_matches(p@, segs.deep_view(), trailing),
{
    let f = p.components.len();
    match &p.sub_route {
        Option::None => {
            if segs.len() != f || trailing != p.trailing_slash {
                return false;
            }
            fixed_match_exec(&p.components, segs)
        },
        Option::Some(_) => {
            if segs.len() <= f {
                return false;
            }
            if !fixed_match_exec(&p.components, segs) {
                return false;
            }
            let nonempty = trailing || segs.len() - f >= 2 || !segs[f].as_str().is_empty();
            proof {
                let sv = segs.deep_view();
                let rem = sv.skip(f as int);
                assert(segs.deep_view()[f as int] == segs[f as int]@);
                if rem.len() >= 2 {
                    lemma_join_len(rem, '/');
                } else {
                    assert(rem.len() == 1);
                    assert(join_char(rem, '/') == rem[0]);
                    assert(rem[0] == sv[f as int]);
                }
                assert(nonempty == (spec_capture(sv, f as int, trailing).len() > 0));
            }
            nonempty
        },
    }
}

/// The entries of the table whose locales are accepted and whose pattern
/// matches, in declaration order.
#[verifier::loop_isolation(false)]
fn candidates_of(
    table: &Vec<Route>,
    segs: &Vec<String>,
    trailing: bool,
    accepted: &AcceptedLocales,
) -> (r: Vec<(usize, usize)>)
    ensures
        forall|k: int|
            0 <= k < r@.len() ==> (#[trigger] r@[k]).0 < table@.len() && r@[k].1
                < table@[r@[k].0 as int].localized_routes@.len(),
        entries_view(r@, table.deep_view()) == spec_candidates(
            spec_flat(table.deep_view()),
            segs.deep_view(),
            trailing,
            accepted@,
        ),
{
    let ghost tv = table.deep_view();
    let flat = flat_entries(table);
    let ghost fv = entries_view(flat@, tv);
    let mut out: Vec<(usize, usize)> = Vec::new();
    let mut k: usize = 0;
    proof {
        assert(entries_view(out@, tv) =~= spec_candidates(
            fv.take(0),
            segs.deep_view(),
            trailing,
            accepted@,
        ));
    }
    while k < flat.len()
        invariant
            0 <= k <= flat.len(),
            forall|m: int|
                0 <= m < out@.len() ==> (#[trigger] out@[m]).0 < table@.len() && out@[m].1
                    < table@[out@[m].0 as int].localized_routes@.len(),
            entries_view(out@, tv) =~= spec_candidates(
                fv.take(k as int),
                segs.deep_view(),
                trailing,
                accepted@,
            ),
        decreases flat.len() - k,
    {
        let (ci, li) = flat[k];
        let lr = &table[ci].localized_routes[li];
        proof {
            assert(fv[k as int] == (ci as int, li as int, tv[ci as int].localized_routes[li as int]));
            assert(tv[ci as int] == table@[ci as int]@);
            assert(tv[ci as int].localized_routes[li as int] == table@[ci as int].localized_routes@[li as int]@);
            assert(fv.take(k + 1 as int).drop_last() =~= fv.take(k as int));
            assert(fv.take(k + 1 as int).last() == fv[k as int]);
        }
        let ok = accepted.accept(&lr.locales) && pattern_match_exec(&lr.path, segs, trailing);
        if ok {
            out.push((ci, li));
        }
        proof {
            assert(entries_view(out@, tv) =~= spec_candidates(
                fv.take(k + 1 as int),
                segs.deep_view(),
                trailing,
                accepted@,
            ));
        }
        k += 1;
    }
    proof {
        assert(fv.take(flat@.len() as int) =~= fv);
    }
    out
}

/// The specificity rank of a pattern at a path position.
fn rank_of(p: &Path, i: usize) -> (r: usize)
    ensures
        r as int == rank_at(p@, i as int),
{
    if i < p.components.len() {
        proof {
            assert(p.components.deep_view()[i as int] == p.components[i as int]@);
        }
        match &p.components[i] {
            crate::pattern::PathComponent::Static(_) => 0,
            crate::pattern::PathComponent::Param(_) => 1,
        }
    } else {
        2
    }
}

/// Whether `p1` is strictly more specific than `p2` over `n` positions.
#[verifier::loop_isolation(false)]
fn strictly_better_exec(p1: &Path, p2: &Path, n: usize) -> (r: bool)
    ensures
        r == strictly_better(p1@, p2@, n as int),
{
    let mut i: usize = 0;
    while i < n
        invariant
            0 <= i <= n,
            forall|j: int| 0 <= j < i ==> rank_at(p1@, j) == rank_at(p2@, j),
        decreases n - i,
    {
        let r1 = rank_of(p1, i);
        let r2 = rank_of(p2, i);
        if r1 < r2 {
            return true;
        }
        if r1 > r2 {
            proof {
                assert forall|w: int|
                    0 <= w < n && rank_at(p1@, w) < rank_at(p2@, w) implies !(forall|j: int|
                    0 <= j < w ==> rank_at(p1@, j) == rank_at(p2@, j)) by {
                    if w <= i as int {
                        assert(rank_at(p1@, w) == rank_at(p2@, w) || w == i as int);
                    } else {
                        assert(rank_at(p1@, i as int) != rank_at(p2@, i as int));
                    }
                }
            }
            return false;
        }
        i += 1;
    }
    proof {
        assert forall|w: int|
            0 <= w < n && rank_at(p1@, w) < rank_at(p2@, w) implies false by {
            assert(rank_at(p1@, w) == rank_at(p2@, w));
        }
    }
    false
}

/// The winning candidate among a non-empty candidate list.
#[verifier::loop_isolation(false)]
fn best_of(cands: &Vec<(usize, usize)>, table: &Vec<Route>, n: usize) -> (r: (usize, usize))
    requires
        cands@.len() > 0,
        forall|k: int|
            0 <= k < cands@.len() ==> (#[trigger] cands@[k]).0 < table@.len() && cands@[k].1
                < table@[cands@[k].0 as int].localized_routes@.len(),
    ensures
        r.0 < table@.len() && r.1 < table@[r.0 as int].localized_routes@.len(),
        spec_best(entries_view(cands@, table.deep_view()), n as int) == (
            r.0 as int,
            r.1 as int,
            table.deep_view()[r.0 as int].localized_routes[r.1 as int],
        ),
{
    let ghost tv = table.deep_view();
    let ghost cv = entries_view(cands@, tv);
    let mut i: usize = cands.len() - 1;
    let mut best = cands[cands.len() - 1];
    proof {
        assert(cv.skip(i as int).len() == 1);
        assert(cv.skip(i as int)[0] == cv[i as int]);
        assert(spec_best(cv.skip(i as int), n as int) == cv[i as int]);
        assert(tv[best.0 as int].localized_routes[best.1 as int]
            == table@[best.0 as int].localized_routes@[best.1 as int]@);
    }
    while i > 0
        invariant
            0 <= i < cands@.len(),
            best.0 < table@.len() && best.1 < table@[best.0 as int].localized_routes@.len(),
            spec_best(cv.skip(i as int), n as int) == (
                best.0 as int,
                best.1 as int,
                tv[best.0 as int].localized_routes[best.1 as int],
            ),
        decreases i,
    {
        i -= 1;
        let (ci, li) = cands[i];
        proof {
            assert(cv[i as int] == (ci as int, li as int, tv[ci as int].localized_routes[li as int]));
            assert(cv.skip(i as int).drop_first() =~= cv.skip(i + 1 as int));
            assert(cv.skip(i as int)[0] == cv[i as int]);
            assert(cv.skip(i as int).len() >= 2);
            assert(tv[ci as int].localized_routes[li as int]
                == table@[ci as int].localized_routes@[li as int]@);
            assert(tv[best.0 as int].localized_routes[best.1 as int]
                == table@[best.0 as int].localized_routes@[best.1 as int]@);
        }
        let bp = &table[best.0].localized_routes[best.1].path;
        let cp = &table[ci].localized_routes[li].path;
        if !strictly_better_exec(bp, cp, n) {
            best = (ci, li);
        }
        proof {
            assert(spec_best(cv.skip(i as int), n as int) == (
                best.0 as int,
                best.1 as int,
                tv[best.0 as int].localized_routes[best.1 as int],
            ));
        }
    }
    proof {
        assert(cv.skip(0) =~= cv);
    }
    best
}

/// A parameter whose segment fails to decode poisons the whole binding.
proof fn lemma_bind_none(cs: Seq<ComponentModel>, segs: Seq<Seq<char>>, i: int)
    requires
        0 <= i < cs.len(),
        cs[i] matches ComponentModel::Param(_),
        percent_decoded(segs[i]) is None,
    ensures
        spec_bind_args(cs, segs, true) is None,
    decreases cs.len(),
{
    if i < cs.len() - 1 {
        assert(cs.drop_last()[i] == cs[i]);
        lemma_bind_none(cs.drop_last(), segs, i);
    }
}

/// Bind the parameters of a matched pattern to the path segments.
#[verifier::loop_isolation(false)]
fn bind_args(cs: &Vec<crate::pattern::PathComponent>, segs: &Vec<String>, decode: bool) -> (r:
    Option<Vec<RouteArg>>)
    requires
        cs@.len() <= segs@.len(),
    ensures
        r matches Some(args) ==> spec_bind_args(cs.deep_view(), segs.deep_view(), decode) == Some(
            args.deep_view(),
        ),
        r is None ==> spec_bind_args(cs.deep_view(), segs.deep_view(), decode) is None,
{
    let ghost cv = cs.deep_view();
    let ghost sv = segs.deep_view();
    let mut out: Vec<RouteArg> = Vec::new();
    let mut i: usize = 0;
    proof {
        assert(cv.take(0) =~= Seq::<ComponentModel>::empty());
        assert(out.deep_view() =~= Seq::<(Seq<char>, Seq<char>)>::empty());
        assert(spec_params(cv.take(0)).len() == 0);
    }
    while i < cs.len()
        invariant
            0 <= i <= cs.len(),
            spec_bind_args(cv.take(i as int), sv, decode) == Some(out.deep_view()),
            out@.len() == spec_params(cv.take(i as int)).len(),
        decreases cs.len() - i,
    {
        proof {
            assert(cv[i as int] == cs[i as int]@);
            assert(sv[i as int] == segs[i as int]@);
            assert(cv.take(i + 1 as int).drop_last() =~= cv.take(i as int));
            assert(cv.take(i + 1 as int).last() == cv[i as int]);
            assert(cv.take(i + 1 as int).take(i as int) =~= cv.take(i as int));
        }
        match &cs[i] {
            crate::pattern::PathComponent::Static(_) => {},
            crate::pattern::PathComponent::Param(nameopt) => {
                let value: String = if decode {
                    match crate::percent::decode_param(segs[i].as_str()) {
                        Some(d) => d,
                        None => {
                            proof {
                                lemma_bind_none(cv, sv, i as int);
                            }
                            return None;
                        },
                    }
                } else {
                    segs[i].clone()
                };
                let name: String = match nameopt {
                    Option::Some(nm) => nm.clone(),
                    Option::None => crate::text::unnamed_param_name(out.len()),
                };
                let ghost prev = out.deep_view();
                out.push(RouteArg { name, value });
                proof {
                    assert(name@ == spec_arg_name(cv.take(i + 1 as int), i as int));
                    assert(out.deep_view() =~= prev.push(out@.last()@));
                }
            },
        }
        i += 1;
    }
    proof {
        assert(cv.take(cs@.len() as int) =~= cv);
    }
    Some(out)
}

/// The capture region handed to a nested type: the remaining segments
/// rejoined, keeping the trailing slash.
fn capture_of(segs: &Vec<String>, f: usize, trailing: bool) -> (r: String)
    requires
        f <= segs@.len(),
    ensures
        r@ == spec_capture(segs.deep_view(), f as int, trailing),
{
    let ghost sv = segs.deep_view();
    let mut parts: Vec<String> = Vec::new();
    let mut i: usize = f;
    proof {
        assert(parts.deep_view() =~= sv.subrange(f as int, f as int));
    }
    while i < segs.len()
        invariant
            f <= i <= segs@.len(),
            segs.deep_view() == sv,
            parts.deep_view() =~= sv.subrange(f as int, i as int),
        decreases segs.len() - i,
    {
        proof {
            assert(sv[i as int] == segs[i as int]@);
            assert(sv.subrange(f as int, i + 1 as int) =~= sv.subrange(f as int, i as int).push(
                sv[i as int],
            ));
        }
        let ghost prev = parts.deep_view();
        parts.push(segs[i].clone());
        proof {
            assert(parts.deep_view() =~= prev.push(parts@.last()@));
        }
        i += 1;
    }
    proof {
        reveal_strlit("/");
        assert("/"@.len() == 1);
        assert("/"@[0] == '/');
        assert(sv.subrange(f as int, sv.len() as int) =~= sv.skip(f as int));
    }
    let mut out = crate::text::join_strings(&parts, "/");
    if trailing {
        out.append("/");
        proof {
            assert("/"@ =~= seq!['/']);
            assert(out@ =~= spec_capture(sv, f as int, trailing));
        }
    } else {
        proof {
            assert(out@ =~= spec_capture(sv, f as int, trailing));
        }
    }
    out
}

/// Parse a request path against the table at `t` under the accepted
/// locale set and the decoded query pairs.
fn parse_at(
    tables: &Vec<Vec<Route>>,
    t: usize,
    path: &str,
    accepted: &AcceptedLocales,
    decode: bool,
    pairs: &Vec<crate::query::QueryPair>,
) -> (r: Option<(RouteValue, Vec<String>)>)
    requires
        t < tables@.len(),
    ensures
        r matches Some(v) ==> spec_parse_at(
            tables.deep_view(),
            t as int,
            path@,
            accepted@,
            decode,
            pairs.deep_view(),
        ) == Some((v.0@, v.1.deep_view())),
        r is None ==> spec_parse_at(
            tables.deep_view(),
            t as int,
            path@,
            accepted@,
            decode,
            pairs.deep_view(),
        ) is None,
    decreases tables@.len() - t,
{
    let ghost tsv = tables.deep_view();
    let table = &tables[t];
    let ghost tv = table.deep_view();
    proof {
        assert(tsv[t as int] == tables@[t as int].deep_view());
    }
    let (segs, trailing) = segment_path(path);
    let cands = candidates_of(table, &segs, trailing, accepted);
    let ghost cv = entries_view(cands@, tv);
    if cands.len() == 0 {
        proof {
            assert(cv.len() == 0);
        }
        return None;
    }
    let (ci, li) = best_of(&cands, table, segs.len());
    let route = &table[ci];
    let lr = &route.localized_routes[li];
    proof {
        assert(tv[ci as int] == table@[ci as int]@);
        assert(tv[ci as int].localized_routes[li as int] == table@[ci as int].localized_routes@[li
            as int]@);
        assert(lr@ == spec_best(cv, segs@.len() as int).2);
        lemma_best_is_candidate(
            spec_flat(tv),
            segs.deep_view(),
            trailing,
            accepted@,
            segs@.len() as int,
        );
        assert(pattern_matches(lr@.path, segs.deep_view(), trailing));
        assert(lr@.path.components.len() <= segs.deep_view().len());
        assert(segs.deep_view().len() == segs@.len());
    }
    let args = match bind_args(&lr.path.components, &segs, decode) {
        Some(a) => a,
        None => {
            return None;
        },
    };
    let qargs = match crate::query::resolve_params(pairs, &route.query_params) {
        Some(q) => q,
        None => {
            return None;
        },
    };
    match &lr.path.sub_route {
        Option::None => {
            let locs = accepted.resulting_locales(&lr.locales);
            let v = RouteValue { case: ci, args, sub: None, query: qargs };
            proof {
                assert(v@.sub =~= Seq::<ValueModel>::empty());
                assert(spec_parse_at(tsv, t as int, path@, accepted@, decode, pairs.deep_view())
                    matches Some(p) && p.0 =~= v@ && p.1 == locs.deep_view());
            }
            Some((v, locs))
        },
        Option::Some(_) => {
            let tgt = match route.sub_target {
                Some(g) => g,
                None => {
                    return None;
                },
            };
            if !(t < tgt && tgt < tables.len()) {
                return None;
            }
            let capture = capture_of(&segs, lr.path.components.len(), trailing);
            let narrowed = accepted.accepted_locales_for_sub_route(&lr.locales);
            match parse_at(tables, tgt, capture.as_str(), &narrowed, decode, pairs) {
                Some((subv, sublocs)) => {
                    let ghost subm = subv@;
                    let v = RouteValue { case: ci, args, sub: Some(Box::new(subv)), query: qargs };
                    proof {
                        assert(v@.sub =~= seq![subm]);
                        assert(spec_parse_at(
                            tsv,
                            t as int,
                            path@,
                            accepted@,
                            decode,
                            pairs.deep_view(),
                        ) matches Some(p) && p.0 =~= v@ && p.1 == sublocs.deep_view());
                    }
                    Some((v, sublocs))
                },
                None => None,
            }
        },
    }
}

/// The winner is one of the candidates.
proof fn lemma_best_in(cands: Seq<(int, int, LocRouteModel)>, n: int)
    requires
        cands.len() > 0,
    ensures
        exists|k: int| 0 <= k < cands.len() && cands[k] == spec_best(cands, n),
    decreases cands.len(),
{
    if cands.len() > 1 {
        lemma_best_in(cands.drop_first(), n);
        let b = spec_best(cands.drop_first(), n);
        let k0 = choose|k: int| 0 <= k < cands.drop_first().len() && cands.drop_first()[k] == b;
        assert(cands[k0 + 1] == b);
        if strictly_better(b.2.path, cands[0].2.path, n) {
            assert(cands[k0 + 1] == spec_best(cands, n));
        } else {
            assert(cands[0] == spec_best(cands, n));
        }
    } else {
        assert(cands[0] == spec_best(cands, n));
    }
}

/// Every candidate is locale-accepted and structurally matches.
proof fn lemma_candidates_property(
    flat: Seq<(int, int, LocRouteModel)>,
    segs: Seq<Seq<char>>,
    trailing: bool,
    accepted: Option<Seq<Seq<char>>>,
)
    ensures
        forall|k: int|
            0 <= k < spec_candidates(flat, segs, trailing, accepted).len() ==> {
                let e = #[trigger] spec_candidates(flat, segs, trailing, accepted)[k];
                spec_accept(accepted, e.2.locales) && pattern_matches(e.2.path, segs, trailing)
            },
    decreases flat.len(),
{
    if flat.len() > 0 {
        lemma_candidates_property(flat.drop_last(), segs, trailing, accepted);
    }
}

/// The winning candidate is locale-accepted and structurally matches.
proof fn lemma_best_is_candidate(
    flat: Seq<(int, int, LocRouteModel)>,
    segs: Seq<Seq<char>>,
    trailing: bool,
    accepted: Option<Seq<Seq<char>>>,
    n: int,
)
    requires
        spec_candidates(flat, segs, trailing, accepted).len() > 0,
    ensures
        ({
            let b = spec_best(spec_candidates(flat, segs, trailing, accepted), n);
            spec_accept(accepted, b.2.locales) && pattern_matches(b.2.path, segs, trailing)
        }),
{
    let cands = spec_candidates(flat, segs, trailing, accepted);
    lemma_best_in(cands, n);
    lemma_candidates_property(flat, segs, trailing, accepted);
}

/// What parsing a whole URL yields: the part after the first `?` is the
/// query string, the part before it is matched against table 0 with every
/// locale accepted.
pub open spec fn spec_parse_url(
    tables: Seq<Seq<RouteModel>>,
    url: Seq<char>,
    decode: bool,
) -> Option<(ValueModel, Seq<Seq<char>>)> {
    let qi = find_char(url, '?');
    let path = if qi < 0 {
        url
    } else {
        url.take(qi)
    };
    let qs = if qi < 0 {
        Seq::<char>::empty()
    } else {
        url.skip(qi + 1)
    };
    match spec_parse_query(qs) {
        Option::None => None,
        Option::Some(pairs) => spec_parse_at(tables, 0, path, None, decode, pairs),
    }
}

/// The view of an optional target locale.
pub open spec fn opt_str_view(locale: Option<&str>) -> Option<Seq<char>> {
    match locale {
        Option::None => None,
        Option::Some(s) => Some(s@),
    }
}

/// Whether a localized pattern qualifies for the target locale: its set
/// is unconstrained, or the target is given and belongs to it.
pub open spec fn qualifies(locales: Option<Seq<Seq<char>>>, locale: Option<Seq<char>>) -> bool {
    match locales {
        Option::None => true,
        Option::Some(ls) => match locale {
            Option::Some(l) => crate::locales::locale_in(ls, l),
            Option::None => false,
        },
    }
}

/// The first (declaration-order) qualifying localized pattern, if any.
pub open spec fn spec_first_qualifying(lrs: Seq<LocRouteModel>, locale: Option<Seq<char>>) -> Option<
    int,
>
    decreases lrs.len(),
{
    if lrs.len() == 0 {
        None
    } else if qualifies(lrs[0].locales, locale) {
        Some(0)
    } else {
        match spec_first_qualifying(lrs.drop_first(), locale) {
            Option::None => None,
            Option::Some(k) => Some(k + 1),
        }
    }
}

/// `spec_first_qualifying` returns the least qualifying index, or `None`
/// when there is none.
proof fn lemma_first_qualifying(lrs: Seq<LocRouteModel>, locale: Option<Seq<char>>)
    ensures
        spec_first_qualifying(lrs, locale) is None ==> forall|j: int|
            0 <= j < lrs.len() ==> !qualifies(#[trigger] lrs[j].locales, locale),
        spec_first_qualifying(lrs, locale) matches Some(k) ==> 0 <= k < lrs.len() && qualifies(
            lrs[k].locales,
            locale,
        ) && forall|j: int| 0 <= j < k ==> !qualifies(#[trigger] lrs[j].locales, locale),
    decreases lrs.len(),
{
    if lrs.len() > 0 && !qualifies(lrs[0].locales, locale) {
        lemma_first_qualifying(lrs.drop_first(), locale);
        assert(forall|j: int| 0 < j < lrs.len() ==> lrs[j] == lrs.drop_first()[j - 1]);
    }
}

/// The first bound value for `name` among a value's path arguments.
pub open spec fn spec_lookup_route_arg(args: Seq<(Seq<char>, Seq<char>)>, name: Seq<char>) -> Option<
    Seq<char>,
>
    decreases args.len(),
{
    if args.len() == 0 {
        None
    } else if args[0].0 == name {
        Some(args[0].1)
    } else {
        spec_lookup_route_arg(args.drop_first(), name)
    }
}

/// The rendered fixed part of a pattern: `/` before each segment, literal
/// text verbatim, parameters replaced by their bound values (encoded when
/// asked); `None` when a parameter is unbound.
pub open spec fn spec_render_fixed(
    cs: Seq<ComponentModel>,
    args: Seq<(Seq<char>, Seq<char>)>,
    encode: bool,
) -> Option<Seq<char>>
    decreases cs.len(),
{
    if cs.len() == 0 {
        Some(Seq::empty())
    } else {
        match spec_render_fixed(cs.drop_last(), args, encode) {
            Option::None => None,
            Option::Some(head) => {
                let i = cs.len() - 1;
                match cs.last() {
                    ComponentModel::Literal(t) => Some(head + seq!['/'] + t),
                    ComponentModel::Param(_) => match spec_lookup_route_arg(
                        args,
                        spec_arg_name(cs, i),
                    ) {
                        Option::None => None,
                        Option::Some(v) => Some(
                            head + seq!['/'] + (if encode {
                                crate::percent::percent_encoded(v)
                            } else {
                                v
                            }),
                        ),
                    },
                }
            },
        }
    }
}

/// What generating the value of table `t` yields: the rendered path and
/// the query pairs collected over the whole tree (own pairs first, then
/// the sub-route's); `None` when no pattern qualifies for the target
/// locale, a parameter is unbound, a mandatory query parameter is
/// unbound, or the value's sub-route does not fit the pattern.
pub open spec fn spec_generate_at(
    tables: Seq<Seq<RouteModel>>,
    t: int,
    value: ValueModel,
    locale: Option<Seq<char>>,
    encode: bool,
) -> Option<(Seq<char>, Seq<(Seq<char>, Seq<char>)>)>
    decreases tables.len() - t,
{
    if !(0 <= t < tables.len()) || !(0 <= value.case < tables[t].len()) {
        None
    } else {
        let route = tables[t][value.case];
        match spec_first_qualifying(route.localized_routes, locale) {
            Option::None => None,
            Option::Some(k) => {
                let lr = route.localized_routes[k];
                match (spec_render_fixed(lr.path.components, value.args, encode), spec_emit_params(
                    route.query_params,
                    value.query,
                )) {
                    (Option::Some(head), Option::Some(own_pairs)) => match lr.path.sub_route {
                        Option::None => if value.sub.len() == 0 {
                            Some(
                                (
                                    head + (if lr.path.trailing_slash {
                                        seq!['/']
                                    } else {
                                        Seq::<char>::empty()
                                    }),
                                    own_pairs,
                                ),
                            )
                        } else {
                            None
                        },
                        Option::Some(_) => if value.sub.len() != 1 {
                            None
                        } else {
                            match route.sub_target {
                                Option::None => None,
                                Option::Some(tgt) => if !(t < tgt && tgt < tables.len()) {
                                    None
                                } else {
                                    match spec_generate_at(
                                        tables,
                                        tgt,
                                        value.sub[0],
                                        locale,
                                        encode,
                                    ) {
                                        Option::None => None,
                                        Option::Some((suburl, subpairs)) => Some(
                                            (head + suburl, own_pairs + subpairs),
                                        ),
                                    }
                                },
                            }
                        },
                    },
                    _ => None,
                }
            },
        }
    }
}

/// What generating a whole URL yields: the rendered path of the root
/// value, then `?` and the rendered query string when any pair was
/// emitted.
pub open spec fn spec_generate_url(
    tables: Seq<Seq<RouteModel>>,
    value: ValueModel,
    locale: Option<Seq<char>>,
    encode: bool,
) -> Option<Seq<char>> {
    match spec_generate_at(tables, 0, value, locale, encode) {
        Option::None => None,
        Option::Some((path, pairs)) => Some(
            path + (if pairs.len() > 0 {
                seq!['?'] + crate::query::spec_render_query(pairs)
            } else {
                Seq::<char>::empty()
            }),
        ),
    }
}

/// The first qualifying localized pattern for the target locale.
#[verifier::loop_isolation(false)]
fn first_qualifying(lrs: &Vec<LocalizedRoute>, locale: Option<&str>) -> (r: Option<usize>)
    ensures
        r matches Some(k) ==> spec_first_qualifying(lrs.deep_view(), opt_str_view(locale)) == Some(
            k as int,
        ),
        r is None ==> spec_first_qualifying(lrs.deep_view(), opt_str_view(locale)) is None,
{
    let ghost lv = lrs.deep_view();
    let ghost lo = opt_str_view(locale);
    proof {
        lemma_first_qualifying(lv, lo);
    }
    let mut i: usize = 0;
    while i < lrs.len()
        invariant
            0 <= i <= lrs.len(),
            forall|j: int| 0 <= j < i ==> !qualifies(#[trigger] lv[j].locales, lo),
        decreases lrs.len() - i,
    {
        proof {
            assert(lv[i as int] == lrs[i as int]@);
        }
        let q = match &lrs[i].locales {
            RouteLocales::Any => true,
            RouteLocales::Explicit(ls) => match locale {
                Option::Some(l) => crate::locales::locale_list_has(ls, l),
                Option::None => false,
            },
        };
        if q {
            proof {
                if spec_first_qualifying(lv, lo) is None {
                    assert(!qualifies(lv[i as int].locales, lo));
                } else {
                    let k = spec_first_qualifying(lv, lo)->Some_0;
                    if k < i as int {
                        assert(!qualifies(lv[k].locales, lo));
                    } else if k > i as int {
                        assert(!qualifies(lv[i as int].locales, lo));
                    }
                }
            }
            return Some(i);
        }
        i += 1;
    }
    None
}

/// The first bound value for `name` among a value's path arguments.
fn lookup_route_arg(args: &Vec<RouteArg>, name: &String) -> (r: Option<String>)
    ensures
        r matches Some(v) ==> spec_lookup_route_arg(args.deep_view(), name@) == Some(v@),
        r is None ==> spec_lookup_route_arg(args.deep_view(), name@) is None,
{
    let ghost av = args.deep_view();
    proof {
        assert(av.skip(0) =~= av);
    }
    let mut i: usize = 0;
    while i < args.len()
        invariant
            0 <= i <= args.len(),
            args.deep_view() == av,
            spec_lookup_route_arg(av, name@) == spec_lookup_route_arg(av.skip(i as int), name@),
        decreases args.len() - i,
    {
        proof {
            assert(av.skip(i as int)[0] == av[i as int]);
            assert(av[i as int] == args[i as int]@);
            assert(av.skip(i as int).drop_first() =~= av.skip(i + 1 as int));
        }
        if args[i].name.eq(name) {
            return Some(args[i].value.clone());
        }
        i += 1;
    }
    proof {
        assert(av.skip(args.len() as int) =~= Seq::<(Seq<char>, Seq<char>)>::empty());
    }
    None
}

/// An unbound parameter poisons the rendering.
proof fn lemma_render_none(
    cs: Seq<ComponentModel>,
    args: Seq<(Seq<char>, Seq<char>)>,
    encode: bool,
    i: int,
)
    requires
        0 <= i < cs.len(),
        cs[i] matches ComponentModel::Param(_),
        spec_lookup_route_arg(args, spec_arg_name(cs.take(i + 1), i)) is None,
    ensures
        spec_render_fixed(cs, args, encode) is None,
    decreases cs.len(),
{
    if i < cs.len() - 1 {
        assert(cs.drop_last()[i] == cs[i]);
        assert(cs.drop_last().take(i + 1) =~= cs.take(i + 1));
        lemma_render_none(cs.drop_last(), args, encode, i);
    } else {
        assert(cs.take(i + 1) =~= cs);
    }
}

/// Render the fixed part of a pattern from the value's bound parameters.
#[verifier::loop_isolation(false)]
fn render_fixed(
    cs: &Vec<crate::pattern::PathComponent>,
    args: &Vec<RouteArg>,
    encode: bool,
) -> (r: Option<String>)
    ensures
        r matches Some(s) ==> spec_render_fixed(cs.deep_view(), args.deep_view(), encode) == Some(
            s@,
        ),
        r is None ==> spec_render_fixed(cs.deep_view(), args.deep_view(), encode) is None,
{
    let ghost cv = cs.deep_view();
    let ghost av = args.deep_view();
    let mut out = String::new();
    let mut params_seen: usize = 0;
    let mut i: usize = 0;
    proof {
        assert(cv.take(0) =~= Seq::<ComponentModel>::empty());
        assert(spec_params(cv.take(0)).len() == 0);
    }
    while i < cs.len()
        invariant
            0 <= i <= cs.len(),
            params_seen <= i,
            spec_render_fixed(cv.take(i as int), av, encode) == Some(out@),
            params_seen == spec_params(cv.take(i as int)).len(),
        decreases cs.len() - i,
    {
        proof {
            assert(cv[i as int] == cs[i as int]@);
            assert(cv.take(i + 1 as int).drop_last() =~= cv.take(i as int));
            assert(cv.take(i + 1 as int).last() == cv[i as int]);
            assert(cv.take(i + 1 as int).take(i as int) =~= cv.take(i as int));
        }
        out.append("/");
        proof {
            reveal_strlit("/");
            assert("/"@ =~= seq!['/']);
        }
        match &cs[i] {
            crate::pattern::PathComponent::Static(t) => {
                out.append(t.as_str());
            },
            crate::pattern::PathComponent::Param(nameopt) => {
                let name: String = match nameopt {
                    Option::Some(nm) => nm.clone(),
                    Option::None => crate::text::unnamed_param_name(params_seen),
                };
                proof {
                    assert(name@ == spec_arg_name(cv.take(i + 1 as int), i as int));
                }
                match lookup_route_arg(args, &name) {
                    Some(v) => {
                        if encode {
                            let e = crate::percent::encode_param(v.as_str());
                            out.append(e.as_str());
                        } else {
                            out.append(v.as_str());
                        }
                    },
                    None => {
                        proof {
                            lemma_render_none(cv, av, encode, i as int);
                        }
                        return None;
                    },
                }
                params_seen += 1;
            },
        }
        i += 1;
    }
    proof {
        assert(cv.take(cs@.len() as int) =~= cv);
    }
    Some(out)
}

/// Generate the path and collected query pairs of a value of table `t`.
fn generate_at(
    tables: &Vec<Vec<Route>>,
    t: usize,
    value: &RouteValue,
    locale: Option<&str>,
    encode: bool,
) -> (r: Option<(String, Vec<crate::query::QueryPair>)>)
    requires
        t < tables@.len(),
    ensures
        r matches Some(v) ==> spec_generate_at(
            tables.deep_view(),
            t as int,
            value@,
            opt_str_view(locale),
            encode,
        ) == Some((v.0@, v.1.deep_view())),
        r is None ==> spec_generate_at(
            tables.deep_view(),
            t as int,
            value@,
            opt_str_view(locale),
            encode,
        ) is None,
    decreases tables@.len() - t,
{
    let ghost tsv = tables.deep_view();
    let table = &tables[t];
    proof {
        assert(tsv[t as int] == tables@[t as int].deep_view());
    }
    if value.case >= table.len() {
        return None;
    }
    let route = &table[value.case];
    proof {
        assert(tsv[t as int][value.case as int] == table@[value.case as int]@);
    }
    let k = match first_qualifying(&route.localized_routes, locale) {
        Some(k) => k,
        None => {
            return None;
        },
    };
    proof {
        lemma_first_qualifying(route.localized_routes.deep_view(), opt_str_view(locale));
    }
    let lr = &route.localized_routes[k];
    proof {
        assert(lr@ == route.localized_routes.deep_view()[k as int]);
    }
    let head = match render_fixed(&lr.path.components, &value.args, encode) {
        Some(h) => h,
        None => {
            return None;
        },
    };
    let own_pairs = match crate::query::emit_params(&route.query_params, &value.query) {
        Some(p) => p,
        None => {
            return None;
        },
    };
    match &lr.path.sub_route {
        Option::None => match &value.sub {
            Option::None => {
                let mut out = head;
                if lr.path.trailing_slash {
                    out.append("/");
                    proof {
                        reveal_strlit("/");
                        assert("/"@ =~= seq!['/']);
                    }
                }
                proof {
                    assert(value@.sub.len() == 0);
                    assert(spec_generate_at(tsv, t as int, value@, opt_str_view(locale), encode)
                        matches Some(p) && p.0 == out@ && p.1 == own_pairs.deep_view());
                }
                Some((out, own_pairs))
            },
            Option::Some(_sb) => {
                proof {
                    assert(value@.sub.len() == 1);
                }
                None
            },
        },
        Option::Some(_) => match &value.sub {
            Option::None => {
                proof {
                    assert(value@.sub.len() == 0);
                }
                None
            },
            Option::Some(sub_box) => {
                proof {
                    assert(value@.sub.len() == 1);
                    assert(value@.sub[0] == (**sub_box)@);
                }
                let tgt = match route.sub_target {
                    Some(g) => g,
                    None => {
                        return None;
                    },
                };
                if !(t < tgt && tgt < tables.len()) {
                    return None;
                }
                match generate_at(tables, tgt, sub_box, locale, encode) {
                    Some((suburl, subpairs)) => {
                        let mut out = head;
                        out.append(suburl.as_str());
                        let mut pairs = own_pairs;
                        let ghost pv = pairs.deep_view();
                        let mut sp = subpairs;
                        let ghost spv = sp.deep_view();
                        pairs.append(&mut sp);
                        proof {
                            assert(pairs.deep_view() =~= pv + spv);
                        }
                        Some((out, pairs))
                    },
                    None => None,
                }
            },
        },
    }
}

impl Router {
    /// Generate the URL of a route value of the root type for an optional
    /// target locale: the first qualifying localized pattern of its case
    /// renders the path (parameters percent-encoded only when
    /// `encode_params` is set, query values always), sub-routes recurse
    /// under the same locale, and the collected query pairs follow after
    /// `?` when any were emitted. `None` exactly when no pattern
    /// qualifies, a parameter is unbound, or a sub-route fails.
    pub fn generate_url(&self, value: &RouteValue, locale: Option<&str>, encode_params: bool) -> (r:
        Option<String>)
        ensures
            r matches Some(s) ==> spec_generate_url(
                self@,
                value@,
                opt_str_view(locale),
                encode_params,
            ) == Some(s@),
            r is None ==> spec_generate_url(
                self@,
                value@,
                opt_str_view(locale),
                encode_params,
            ) is None,
    {
        if self.tables.len() == 0 {
            return None;
        }
        match generate_at(&self.tables, 0, value, locale, encode_params) {
            Some((path, pairs)) => {
                let mut out = path;
                if pairs.len() > 0 {
                    out.append("?");
                    proof {
                        reveal_strlit("?");
                        assert("?"@ =~= seq!['?']);
                    }
                    let q = crate::query::render_query(&pairs);
                    out.append(q.as_str());
                }
                Some(out)
            },
            None => None,
        }
    }
}

/// One declared localized pattern of a case: the locale set and the path
/// specification string, still to be compiled.
#[derive(Debug, Clone, PartialEq, Eq)]
pub struct LocalizedDef {
    pub locales: RouteLocales,
    pub path_spec: String,
}

/// Mathematical model of a declared localized pattern.
pub struct LocalizedDefModel {
    pub locales: Option<Seq<Seq<char>>>,
    pub path_spec: Seq<char>,
}

impl View for LocalizedDef {
    type V = LocalizedDefModel;

    open spec fn view(&self) -> LocalizedDefModel {
        LocalizedDefModel { locales: self.locales@, path_spec: self.path_spec@ }
    }
}

impl DeepView for LocalizedDef {
    type V = LocalizedDefModel;

    open spec fn deep_view(&self) -> LocalizedDefModel {
        self.view()
    }
}

/// One declared route case, as the integrator supplies it.
#[derive(Debug, Clone, PartialEq, Eq)]
pub struct RouteDef {
    pub name: String,
    pub shape: FieldShape,
    pub routes: Vec<LocalizedDef>,
    pub query_params: Vec<QueryParam>,
    pub sub_target: Option<usize>,
}

/// Mathematical model of a declared route case.
pub struct RouteDefModel {
    pub name: Seq<char>,
    pub shape: ShapeModel,
    pub routes: Seq<LocalizedDefModel>,
    pub query_params: Seq<QueryParamModel>,
    pub sub_target: Option<int>,
}

impl View for RouteDef {
    type V = RouteDefModel;

    open spec fn view(&self) -> RouteDefModel {
        RouteDefModel {
            name: self.name@,
            shape: self.shape@,
            routes: self.routes.deep_view(),
            query_params: self.query_params.deep_view(),
            sub_target: match self.sub_target {
                Option::None => None,
                Option::Some(t) => Some(t as int),
            },
        }
    }
}

impl DeepView for RouteDef {
    type V = RouteDefModel;

    open spec fn deep_view(&self) -> RouteDefModel {
        self.view()
    }
}

/// The compiled patterns of a case's declared routes; `None` when any
/// path specification breaks the grammar.
pub open spec fn spec_compile_lrs(defs: Seq<LocalizedDefModel>) -> Option<Seq<LocRouteModel>>
    decreases defs.len(),
{
    if defs.len() == 0 {
        Some(Seq::empty())
    } else {
        match (spec_compile_lrs(defs.drop_last()), spec_parse_path(defs.last().path_spec)) {
            (Option::Some(rest), Option::Some(p)) => Some(
                rest.push(LocRouteModel { path: p, locales: defs.last().locales }),
            ),
            _ => None,
        }
    }
}

/// The compiled form of one declared case.
pub open spec fn spec_compile_case(d: RouteDefModel) -> Option<RouteModel> {
    match spec_compile_lrs(d.routes) {
        Option::None => None,
        Option::Some(lrs) => Some(
            RouteModel {
                name: d.name,
                shape: d.shape,
                localized_routes: lrs,
                query_params: d.query_params,
                sub_target: d.sub_target,
            },
        ),
    }
}

/// The compiled form of one declared table.
pub open spec fn spec_compile_table(ds: Seq<RouteDefModel>) -> Option<Seq<RouteModel>>
    decreases ds.len(),
{
    if ds.len() == 0 {
        Some(Seq::empty())
    } else {
        match (spec_compile_table(ds.drop_last()), spec_compile_case(ds.last())) {
            (Option::Some(rest), Option::Some(r)) => Some(rest.push(r)),
            _ => None,
        }
    }
}

/// The compiled form of all declared tables.
pub open spec fn spec_compile(dss: Seq<Seq<RouteDefModel>>) -> Option<Seq<Seq<RouteModel>>>
    decreases dss.len(),
{
    if dss.len() == 0 {
        Some(Seq::empty())
    } else {
        match (spec_compile(dss.drop_last()), spec_compile_table(dss.last())) {
            (Option::Some(rest), Option::Some(t)) => Some(rest.push(t)),
            _ => None,
        }
    }
}

/// Whether a pattern fits a case's field shape: a case without fields
/// binds nothing; positional fields are bound by exactly as many unnamed
/// parameters and sub-routes; named fields only by named ones carrying
/// known field names.
pub open spec fn shape_ok(shape: ShapeModel, p: PathModel) -> bool {
    match shape {
        ShapeModel::NoFields => !crate::pattern::spec_has_unnamed(p)
            && !crate::pattern::spec_has_named(p),
        ShapeModel::PositionalFields(n) => !crate::pattern::spec_has_named(p) && spec_params(
            p.components,
        ).len() + (if p.sub_route is Some {
            1int
        } else {
            0int
        }) == n,
        ShapeModel::NamedFields(names) => !crate::pattern::spec_has_unnamed(p) && (forall|i: int|
            0 <= i < p.components.len() ==> (#[trigger] p.components[i] matches
                ComponentModel::Param(Some(nm)) ==> crate::locales::locale_in(names, nm)))
            && (p.sub_route matches Some(SubModel::Named(nm)) ==> crate::locales::locale_in(
            names,
            nm,
        )),
    }
}

/// Whether two localized patterns of one case declare overlapping
/// explicit locale sets.
pub open spec fn locales_overlap(
    a: Option<Seq<Seq<char>>>,
    b: Option<Seq<Seq<char>>>,
) -> bool {
    a matches Some(av) && b matches Some(bv) && crate::locales::locales_intersect(av, bv)
}

/// Whether one compiled case is well-formed within a router of
/// `n_tables` tables, standing in table `t`.
pub open spec fn case_ok(n_tables: int, t: int, r: RouteModel) -> bool {
    &&& r.localized_routes.len() >= 1
    &&& (forall|i: int|
        0 <= i < r.localized_routes.len() ==> ((#[trigger] r.localized_routes[i]).locales matches
            Some(ls) ==> ls.len() >= 1))
    &&& (forall|i: int, j: int|
        0 <= i < j < r.localized_routes.len() ==> !locales_overlap(
            (#[trigger] r.localized_routes[i]).locales,
            (#[trigger] r.localized_routes[j]).locales,
        ))
    &&& (forall|i: int|
        0 <= i < r.localized_routes.len() ==> shape_ok(
            r.shape,
            (#[trigger] r.localized_routes[i]).path,
        ))
    &&& (r.query_params.len() > 0 ==> r.shape matches ShapeModel::NamedFields(_))
    &&& (r.shape matches ShapeModel::NamedFields(names) ==> forall|i: int|
        0 <= i < r.query_params.len() ==> crate::locales::locale_in(
            names,
            crate::query::spec_param_name(#[trigger] r.query_params[i]),
        ))
    &&& (forall|i: int|
        0 <= i < r.localized_routes.len() ==> (((#[trigger] r.localized_routes[i]).path.sub_route
            is Some) <==> (r.sub_target is Some)))
    &&& (r.sub_target matches Some(tgt) ==> t < tgt < n_tables)
}

/// Whether every case of every table is well-formed.
pub open spec fn spec_router_ok(tables: Seq<Seq<RouteModel>>) -> bool {
    forall|t: int, c: int|
        0 <= t < tables.len() && 0 <= c < tables[t].len() ==> case_ok(
            tables.len() as int,
            t,
            #[trigger] tables[t][c],
        )
}

/// A declaration error, anchored to the table, case and (where it
/// applies) localized route it was found in. The indices are diagnostic;
/// the compiler's contract is that it fails exactly on invalid input.
#[derive(Debug, Clone, PartialEq, Eq)]
pub enum RouteError {
    PathSyntax { table: usize, case: usize, route: usize, err: PathSyntaxError },
    EmptyCase { table: usize, case: usize },
    EmptyLocales { table: usize, case: usize, route: usize },
    LocaleOverlap { table: usize, case: usize, route: usize },
    ShapeMismatch { table: usize, case: usize, route: usize },
    QueryParamShape { table: usize, case: usize },
    SubRouteMismatch { table: usize, case: usize },
    BadSubTarget { table: usize, case: usize },
}

/// A route whose path fails to compile poisons its case.
proof fn lemma_compile_lrs_none(defs: Seq<LocalizedDefModel>, i: int)
    requires
        0 <= i < defs.len(),
        spec_parse_path(defs[i].path_spec) is None,
    ensures
        spec_compile_lrs(defs) is None,
    decreases defs.len(),
{
    if i < defs.len() - 1 {
        assert(defs.drop_last()[i] == defs[i]);
        lemma_compile_lrs_none(defs.drop_last(), i);
    }
}

/// A case that fails to compile poisons its table.
proof fn lemma_compile_table_none(ds: Seq<RouteDefModel>, i: int)
    requires
        0 <= i < ds.len(),
        spec_compile_case(ds[i]) is None,
    ensures
        spec_compile_table(ds) is None,
    decreases ds.len(),
{
    if i < ds.len() - 1 {
        assert(ds.drop_last()[i] == ds[i]);
        lemma_compile_table_none(ds.drop_last(), i);
    }
}

/// A table that fails to compile poisons the router.
proof fn lemma_compile_none(dss: Seq<Seq<RouteDefModel>>, i: int)
    requires
        0 <= i < dss.len(),
        spec_compile_table(dss[i]) is None,
    ensures
        spec_compile(dss) is None,
    decreases dss.len(),
{
    if i < dss.len() - 1 {
        assert(dss.drop_last()[i] == dss[i]);
        lemma_compile_none(dss.drop_last(), i);
    }
}

/// Compile the declared routes of one case.
#[verifier::loop_isolation(false)]
fn compile_lrs(defs: &Vec<LocalizedDef>) -> (r: Result<Vec<LocalizedRoute>, (usize, PathSyntaxError)>)
    ensures
        r matches Ok(lrs) ==> spec_compile_lrs(defs.deep_view()) == Some(lrs.deep_view()),
        r is Err ==> spec_compile_lrs(defs.deep_view()) is None,
{
    let ghost dv = defs.deep_view();
    let mut out: Vec<LocalizedRoute> = Vec::new();
    let mut i: usize = 0;
    proof {
        assert(dv.take(0) =~= Seq::<LocalizedDefModel>::empty());
        assert(out.deep_view() =~= Seq::<LocRouteModel>::empty());
    }
    while i < defs.len()
        invariant
            0 <= i <= defs.len(),
            spec_compile_lrs(dv.take(i as int)) == Some(out.deep_view()),
        decreases defs.len() - i,
    {
        proof {
            assert(dv[i as int] == defs[i as int]@);
            assert(dv.take(i + 1 as int).drop_last() =~= dv.take(i as int));
            assert(dv.take(i + 1 as int).last() == dv[i as int]);
        }
        match Path::parse_str(defs[i].path_spec.as_str()) {
            Ok(p) => {
                let ghost prev = out.deep_view();
                out.push(LocalizedRoute { path: p, locales: defs[i].locales.duplicate() });
                proof {
                    assert(out.deep_view() =~= prev.push(out@.last()@));
                }
            },
            Err(e) => {
                proof {
                    lemma_compile_lrs_none(dv, i as int);
                }
                return Err((i, e));
            },
        }
        i += 1;
    }
    proof {
        assert(dv.take(defs@.len() as int) =~= dv);
    }
    Ok(out)
}

/// Compile one declared case.
fn compile_case(d: &RouteDef) -> (r: Result<Route, (usize, PathSyntaxError)>)
    ensures
        r matches Ok(c) ==> spec_compile_case(d@) == Some(c@),
        r is Err ==> spec_compile_case(d@) is None,
{
    match compile_lrs(&d.routes) {
        Ok(lrs) => {
            let shape: FieldShape = match &d.shape {
                FieldShape::NoFields => FieldShape::NoFields,
                FieldShape::PositionalFields(n) => FieldShape::PositionalFields(*n),
                FieldShape::NamedFields(names) => FieldShape::NamedFields(names.clone()),
            };
            let c = Route {
                name: d.name.clone(),
                shape,
                localized_routes: lrs,
                query_params: crate::query::duplicate_query_params(&d.query_params),
                sub_target: d.sub_target,
            };
            proof {
                assert(spec_compile_case(d@) matches Some(m) && m =~= c@);
            }
            Ok(c)
        },
        Err(e) => Err(e),
    }
}

/// Compile one declared table.
#[verifier::loop_isolation(false)]
fn compile_table(ds: &Vec<RouteDef>) -> (r: Result<Vec<Route>, (usize, usize, PathSyntaxError)>)
    ensures
        r matches Ok(t) ==> spec_compile_table(ds.deep_view()) == Some(t.deep_view()),
        r is Err ==> spec_compile_table(ds.deep_view()) is None,
{
    let ghost dv = ds.deep_view();
    let mut out: Vec<Route> = Vec::new();
    let mut i: usize = 0;
    proof {
        assert(dv.take(0) =~= Seq::<RouteDefModel>::empty());
        assert(out.deep_view() =~= Seq::<RouteModel>::empty());
    }
    while i < ds.len()
        invariant
            0 <= i <= ds.len(),
            spec_compile_table(dv.take(i as int)) == Some(out.deep_view()),
        decreases ds.len() - i,
    {
        proof {
            assert(dv[i as int] == ds[i as int]@);
            assert(dv.take(i + 1 as int).drop_last() =~= dv.take(i as int));
            assert(dv.take(i + 1 as int).last() == dv[i as int]);
        }
        match compile_case(&ds[i]) {
            Ok(c) => {
                let ghost prev = out.deep_view();
                out.push(c);
                proof {
                    assert(out.deep_view() =~= prev.push(out@.last()@));
                }
            },
            Err((ri, e)) => {
                proof {
                    lemma_compile_table_none(dv, i as int);
                }
                return Err((i, ri, e));
            },
        }
        i += 1;
    }
    proof {
        assert(dv.take(ds@.len() as int) =~= dv);
    }
    Ok(out)
}

/// Whether a pattern fits a case's field shape.
#[verifier::loop_isolation(false)]
fn shape_ok_exec(shape: &FieldShape, p: &Path) -> (r: bool)
    ensures
        r == shape_ok(shape@, p@),
{
    match shape {
        FieldShape::NoFields => !p.contains_unnamed_params_and_sub_routes()
            && !p.contains_named_params_and_sub_routes(),
        FieldShape::PositionalFields(n) => {
            if p.contains_named_params_and_sub_routes() {
                return false;
            }
            let params = p.params();
            proof {
                crate::pattern::lemma_spec_params_len(p@.components);
                assert(params.deep_view().len() == spec_params(p@.components).len());
            }
            if p.sub_route.is_some() {
                *n > 0 && params.len() == *n - 1
            } else {
                params.len() == *n
            }
        },
        FieldShape::NamedFields(names) => {
            if p.contains_unnamed_params_and_sub_routes() {
                return false;
            }
            let mut i: usize = 0;
            while i < p.components.len()
                invariant
                    0 <= i <= p.components@.len(),
                    forall|j: int|
                        0 <= j < i ==> (#[trigger] p.components.deep_view()[j] matches
                            ComponentModel::Param(Some(nm)) ==> crate::locales::locale_in(
                            names.deep_view(),
                            nm,
                        )),
                decreases p.components@.len() - i,
            {
                proof {
                    assert(p.components.deep_view()[i as int] == p.components[i as int]@);
                }
                if let crate::pattern::PathComponent::Param(Some(nm)) = &p.components[i] {
                    if !crate::locales::locale_list_has(names, nm.as_str()) {
                        return false;
                    }
                }
                i += 1;
            }
            match &p.sub_route {
                Option::Some(crate::pattern::SubRoute::Named(nm)) => crate::locales::locale_list_has(
                    names,
                    nm.as_str(),
                ),
                _ => true,
            }
        },
    }
}

/// Check one compiled case; `Ok` exactly when it is well-formed.
#[verifier::loop_isolation(false)]
fn check_case(n_tables: usize, t: usize, ci: usize, route: &Route) -> (r: Result<(), RouteError>)
    ensures
        r is Ok <==> case_ok(n_tables as int, t as int, route@),
{
    let lrs = &route.localized_routes;
    let ghost lv = lrs.deep_view();
    if lrs.len() == 0 {
        return Err(RouteError::EmptyCase { table: t, case: ci });
    }
    let mut i: usize = 0;
    while i < lrs.len()
        invariant
            0 <= i <= lrs@.len(),
            forall|j: int|
                0 <= j < i ==> ((#[trigger] lv[j]).locales matches Some(ls) ==> ls.len() >= 1),
            forall|j: int, k: int|
                0 <= j < k < i ==> !locales_overlap(
                    (#[trigger] lv[j]).locales,
                    (#[trigger] lv[k]).locales,
                ),
            forall|j: int| 0 <= j < i ==> shape_ok(route@.shape, (#[trigger] lv[j]).path),
            forall|j: int|
                0 <= j < i ==> (((#[trigger] lv[j]).path.sub_route is Some) <==> (route@.sub_target
                    is Some)),
        decreases lrs@.len() - i,
    {
        proof {
            assert(lv[i as int] == lrs[i as int]@);
        }
        if let RouteLocales::Explicit(ls) = &lrs[i].locales {
            if ls.len() == 0 {
                return Err(RouteError::EmptyLocales { table: t, case: ci, route: i });
            }
        }
        let mut j: usize = 0;
        while j < i
            invariant
                0 <= j <= i < lrs@.len(),
                lv[i as int] == lrs@[i as int]@,
                forall|k: int|
                    0 <= k < j ==> !locales_overlap((#[trigger] lv[k]).locales, lv[i as int].locales),
            decreases i - j,
        {
            proof {
                assert(lv[j as int] == lrs[j as int]@);
            }
            let overlap = match (&lrs[j].locales, &lrs[i].locales) {
                (RouteLocales::Explicit(a), RouteLocales::Explicit(b)) =>
                    crate::locales::locale_lists_intersect(a, b),
                _ => false,
            };
            if overlap {
                return Err(RouteError::LocaleOverlap { table: t, case: ci, route: i });
            }
            j += 1;
        }
        if !shape_ok_exec(&route.shape, &lrs[i].path) {
            return Err(RouteError::ShapeMismatch { table: t, case: ci, route: i });
        }
        if lrs[i].path.sub_route.is_some() != route.sub_target.is_some() {
            return Err(RouteError::SubRouteMismatch { table: t, case: ci });
        }
        i += 1;
    }
    if route.query_params.len() > 0 {
        match &route.shape {
            FieldShape::NamedFields(_names) => {},
            FieldShape::NoFields => {
                proof {
                    assert(!(route@.shape matches ShapeModel::NamedFields(_)));
                }
                return Err(RouteError::QueryParamShape { table: t, case: ci });
            },
            FieldShape::PositionalFields(_n) => {
                proof {
                    assert(!(route@.shape matches ShapeModel::NamedFields(_)));
                }
                return Err(RouteError::QueryParamShape { table: t, case: ci });
            },
        }
    }
    if let FieldShape::NamedFields(names) = &route.shape {
        let ghost qv = route.query_params.deep_view();
        let mut i: usize = 0;
        while i < route.query_params.len()
            invariant
                0 <= i <= route.query_params@.len(),
                forall|j: int|
                    0 <= j < i ==> crate::locales::locale_in(
                        names.deep_view(),
                        crate::query::spec_param_name(#[trigger] qv[j]),
                    ),
            decreases route.query_params@.len() - i,
        {
            proof {
                assert(qv[i as int] == route.query_params[i as int]@);
            }
            let nm: &String = match &route.query_params[i] {
                QueryParam::Mandatory(n) => n,
                QueryParam::Optional(n) => n,
                QueryParam::WithDefaultValue(n, _) => n,
            };
            if !crate::locales::locale_list_has(names, nm.as_str()) {
                proof {
                    assert(route@.shape == ShapeModel::NamedFields(names.deep_view()));
                    assert(crate::query::spec_param_name(qv[i as int]) == nm@);
                    assert(route@.query_params == qv);
                    assert(!crate::locales::locale_in(
                        names.deep_view(),
                        crate::query::spec_param_name(route@.query_params[i as int]),
                    ));
                    assert(!case_ok(n_tables as int, t as int, route@));
                }
                return Err(RouteError::QueryParamShape { table: t, case: ci });
            }
            i += 1;
        }
    }
    if let Some(tgt) = route.sub_target {
        if !(t < tgt && tgt < n_tables) {
            return Err(RouteError::BadSubTarget { table: t, case: ci });
        }
    }
    Ok(())
}

impl Router {
    /// Compile a declarative list of tables into a router. Succeeds
    /// exactly when every path specification fits the grammar and every
    /// case is well-formed: at least one localized pattern, non-empty and
    /// pairwise non-overlapping explicit locale sets, patterns that fit
    /// the case's field shape, query parameters only on named-field cases
    /// and naming known fields, sub-route patterns exactly on cases with
    /// a sub-route target, and every target beyond its own table.
    #[verifier::loop_isolation(false)]
    pub fn parse(defs: &Vec<Vec<RouteDef>>) -> (r: Result<Router, RouteError>)
        ensures
            r matches Ok(router) ==> spec_compile(defs.deep_view()) == Some(router@)
                && spec_router_ok(router@),
            r is Err ==> !(spec_compile(defs.deep_view()) matches Some(ts) && spec_router_ok(ts)),
    {
        let ghost dv = defs.deep_view();
        let mut tables: Vec<Vec<Route>> = Vec::new();
        let mut i: usize = 0;
        proof {
            assert(dv.take(0) =~= Seq::<Seq<RouteDefModel>>::empty());
            assert(tables.deep_view() =~= Seq::<Seq<RouteModel>>::empty());
        }
        while i < defs.len()
            invariant
                0 <= i <= defs@.len(),
                spec_compile(dv.take(i as int)) == Some(tables.deep_view()),
            decreases defs@.len() - i,
        {
            proof {
                assert(dv[i as int] == defs[i as int].deep_view());
                assert(dv.take(i + 1 as int).drop_last() =~= dv.take(i as int));
                assert(dv.take(i + 1 as int).last() == dv[i as int]);
            }
            match compile_table(&defs[i]) {
                Ok(tbl) => {
                    let ghost prev = tables.deep_view();
                    tables.push(tbl);
                    proof {
                        assert(tables.deep_view() =~= prev.push(tables@.last().deep_view()));
                    }
                },
                Err((ci, ri, e)) => {
                    proof {
                        lemma_compile_none(dv, i as int);
                    }
                    return Err(RouteError::PathSyntax { table: i, case: ci, route: ri, err: e });
                },
            }
            i += 1;
        }
        proof {
            assert(dv.take(defs@.len() as int) =~= dv);
        }
        let ghost tsv = tables.deep_view();
        let n_tables = tables.len();
        let mut t: usize = 0;
        while t < tables.len()
            invariant
                0 <= t <= tables@.len(),
                forall|tt: int, c: int|
                    0 <= tt < t && 0 <= c < tsv[tt].len() ==> case_ok(
                        tsv.len() as int,
                        tt,
                        #[trigger] tsv[tt][c],
                    ),
            decreases tables@.len() - t,
        {
            proof {
                assert(tsv[t as int] == tables[t as int].deep_view());
            }
            let mut c: usize = 0;
            while c < tables[t].len()
                invariant
                    0 <= t < tables@.len(),
                    0 <= c <= tables@[t as int]@.len(),
                    tsv[t as int] == tables@[t as int].deep_view(),
                    forall|cc: int|
                        0 <= cc < c ==> case_ok(
                            tsv.len() as int,
                            t as int,
                            #[trigger] tsv[t as int][cc],
                        ),
                decreases tables@[t as int]@.len() - c,
            {
                proof {
                    assert(tsv[t as int][c as int] == tables[t as int][c as int]@);
                }
                match check_case(n_tables, t, c, &tables[t][c]) {
                    Ok(()) => {},
                    Err(e) => {
                        proof {
                            assert(!case_ok(tsv.len() as int, t as int, tsv[t as int][c as int]));
                            assert(!spec_router_ok(tsv));
                        }
                        return Err(e);
                    },
                }
                c += 1;
            }
            t += 1;
        }
        let router = Router { tables };
        proof {
            assert(router@ == tsv);
            assert(spec_router_ok(tsv));
        }
        Ok(router)
    }
}

impl Router {
    /// Parse a URL into a route value of the root type and the locales
    /// under which the match is valid. The part after the first `?` is
    /// the query string; path parameters are percent-decoded only when
    /// `decode_params` is set, query values always. `None` exactly when
    /// no declared, locale-accepting pattern matches or a decoding or
    /// mandatory query parameter fails.
    pub fn parse_url(&self, url: &str, decode_params: bool) -> (r: Option<(RouteValue, Vec<String>)>)
        ensures
            r matches Some(v) ==> spec_parse_url(self@, url@, decode_params) == Some(
                (v.0@, v.1.deep_view()),
            ),
            r is None ==> spec_parse_url(self@, url@, decode_params) is None,
    {
        let n = url.unicode_len();
        proof {
            crate::text::lemma_find_char(url@, '?');
        }
        let (path, qs) = match crate::text::find_in_str(url, '?') {
            Some(i) => {
                let p = url.substring_char(0, i);
                let q = url.substring_char(i + 1, n);
                proof {
                    assert(p@ =~= url@.take(find_char(url@, '?')));
                    assert(q@ =~= url@.skip(find_char(url@, '?') + 1));
                }
                (p, q)
            },
            None => {
                let q = url.substring_char(n, n);
                proof {
                    assert(q@ =~= Seq::<char>::empty());
                }
                (url, q)
            },
        };
        let pairs = match crate::query::parse_query(qs) {
            Some(p) => p,
            None => {
                return None;
            },
        };
        if self.tables.len() == 0 {
            return None;
        }
        let accepted = AcceptedLocales::Any;
        parse_at(&self.tables, 0, path, &accepted, decode_params, &pairs)
    }
}

} // verus!
