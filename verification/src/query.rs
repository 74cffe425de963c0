//! The query-string codec: splitting the flat `key=value` string into
//! decoded pairs, resolving declared parameters against them
//! (mandatory / optional / with-default), and rendering the pairs back.
//!
//! On duplicate keys the last occurrence wins. A parent case and its
//! sub-routes share one flat string; keys are not namespaced.

use vstd::prelude::*;
use crate::percent::query_decoded;
use crate::percent::query_encoded;
use crate::percent::decode_query_value;
use crate::percent::encode_query_value;
use crate::text::find_char;
use crate::text::find_in_str;
use crate::text::split_char;
use crate::text::split_str;

verus! {

/// A query parameter declared on a route case: the bound field's name and
/// its absence policy.
#[derive(Debug, Clone, PartialEq, Eq)]
pub enum QueryParam {
    Mandatory(String),
    Optional(String),
    WithDefaultValue(String, String),
}

/// Mathematical model of a declared query parameter.
pub enum QueryParamModel {
    Mandatory(Seq<char>),
    Optional(Seq<char>),
    WithDefaultValue(Seq<char>, Seq<char>),
}

impl View for QueryParam {
    type V = QueryParamModel;

    open spec fn view(&self) -> QueryParamModel {
        match self {
            QueryParam::Mandatory(n) => QueryParamModel::Mandatory(n@),
            QueryParam::Optional(n) => QueryParamModel::Optional(n@),
            QueryParam::WithDefaultValue(n, d) => QueryParamModel::WithDefaultValue(n@, d@),
        }
    }
}

impl DeepView for QueryParam {
    type V = QueryParamModel;

    open spec fn deep_view(&self) -> QueryParamModel {
        self.view()
    }
}

/// One decoded key-value pair of a query string.
#[derive(Debug, Clone, PartialEq, Eq)]
pub struct QueryPair {
    pub key: String,
    pub value: String,
}

impl View for QueryPair {
    type V = (Seq<char>, Seq<char>);

    open spec fn view(&self) -> (Seq<char>, Seq<char>) {
        (self.key@, self.value@)
    }
}

impl DeepView for QueryPair {
    type V = (Seq<char>, Seq<char>);

    open spec fn deep_view(&self) -> (Seq<char>, Seq<char>) {
        self.view()
    }
}

/// A query-field binding of a route value: `None` is the absent state of
/// an optional parameter.
#[derive(Debug, Clone, PartialEq, Eq)]
pub struct QueryArg {
    pub name: String,
    pub value: Option<String>,
}

impl View for QueryArg {
    type V = (Seq<char>, Option<Seq<char>>);

    open spec fn view(&self) -> (Seq<char>, Option<Seq<char>>) {
        (
            self.name@,
            match &self.value {
                Option::None => None,
                Option::Some(v) => Some(v@),
            },
        )
    }
}

impl DeepView for QueryArg {
    type V = (Seq<char>, Option<Seq<char>>);

    open spec fn deep_view(&self) -> (Seq<char>, Option<Seq<char>>) {
        self.view()
    }
}

impl QueryParam {
    /// A copy with the same name and mode.
    pub fn duplicate(&self) -> (r: QueryParam)
        ensures
            r@ == self@,
    {
        match self {
            QueryParam::Mandatory(n) => QueryParam::Mandatory(n.clone()),
            QueryParam::Optional(n) => QueryParam::Optional(n.clone()),
            QueryParam::WithDefaultValue(n, d) => QueryParam::WithDefaultValue(n.clone(), d.clone()),
        }
    }
}

/// A view-preserving copy of a declared parameter list.
#[verifier::loop_isolation(false)]
pub fn duplicate_query_params(v: &Vec<QueryParam>) -> (r: Vec<QueryParam>)
    ensures
        r.deep_view() == v.deep_view(),
{
    let ghost vv = v.deep_view();
    let mut out: Vec<QueryParam> = Vec::new();
    let mut i: usize = 0;
    proof {
        assert(out.deep_view() =~= vv.take(0));
    }
    while i < v.len()
        invariant
            0 <= i <= v@.len(),
            out.deep_view() =~= vv.take(i as int),
        decreases v@.len() - i,
    {
        proof {
            assert(vv[i as int] == v[i as int]@);
        }
        let ghost prev = out.deep_view();
        out.push(v[i].duplicate());
        proof {
            assert(out.deep_view() =~= prev.push(out@.last()@));
            assert(vv.take(i + 1 as int) =~= vv.take(i as int).push(vv[i as int]));
        }
        i += 1;
    }
    proof {
        assert(vv.take(v@.len() as int) =~= vv);
    }
    out
}

/// What one `&`-separated piece of a query string denotes: the key before
/// the first `=` and the value after it (an absent `=` means an empty
/// value), both decoded; `None` when either fails to decode.
pub open spec fn spec_parse_pair(p: Seq<char>) -> Option<(Seq<char>, Seq<char>)> {
    let idx = find_char(p, '=');
    let key_raw = if idx < 0 {
        p
    } else {
        p.take(idx)
    };
    let val_raw = if idx < 0 {
        Seq::<char>::empty()
    } else {
        p.skip(idx + 1)
    };
    match (query_decoded(key_raw), query_decoded(val_raw)) {
        (Option::Some(k), Option::Some(v)) => Some((k, v)),
        _ => None,
    }
}

/// The decoded pairs of a piece list; `None` when any piece fails.
pub open spec fn spec_parse_pieces(ps: Seq<Seq<char>>) -> Option<Seq<(Seq<char>, Seq<char>)>>
    decreases ps.len(),
{
    if ps.len() == 0 {
        Some(Seq::empty())
    } else {
        match (spec_parse_pieces(ps.drop_last()), spec_parse_pair(ps.last())) {
            (Option::Some(rest), Option::Some(pr)) => Some(rest.push(pr)),
            _ => None,
        }
    }
}

/// The decoded key-value pairs of a query string (the text after `?`); an
/// empty string holds no pairs.
pub open spec fn spec_parse_query(q: Seq<char>) -> Option<Seq<(Seq<char>, Seq<char>)>> {
    if q.len() == 0 {
        Some(Seq::empty())
    } else {
        spec_parse_pieces(split_char(q, '&'))
    }
}

/// The value of the last pair with the given key.
pub open spec fn spec_last_value(pairs: Seq<(Seq<char>, Seq<char>)>, key: Seq<char>) -> Option<
    Seq<char>,
>
    decreases pairs.len(),
{
    if pairs.len() == 0 {
        None
    } else if pairs.last().0 == key {
        Some(pairs.last().1)
    } else {
        spec_last_value(pairs.drop_last(), key)
    }
}

/// The field name a declared parameter binds.
pub open spec fn spec_param_name(qp: QueryParamModel) -> Seq<char> {
    match qp {
        QueryParamModel::Mandatory(n) => n,
        QueryParamModel::Optional(n) => n,
        QueryParamModel::WithDefaultValue(n, _) => n,
    }
}

/// How one declared parameter resolves against the pairs: the outer `None`
/// fails the whole match (a missing mandatory parameter); the inner `None`
/// is the absent state of an optional parameter.
pub open spec fn spec_resolve_param(
    pairs: Seq<(Seq<char>, Seq<char>)>,
    qp: QueryParamModel,
) -> Option<Option<Seq<char>>> {
    match qp {
        QueryParamModel::Mandatory(name) => match spec_last_value(pairs, name) {
            Option::Some(v) => Some(Some(v)),
            Option::None => None,
        },
        QueryParamModel::Optional(name) => Some(spec_last_value(pairs, name)),
        QueryParamModel::WithDefaultValue(name, d) => match spec_last_value(pairs, name) {
            Option::Some(v) => Some(Some(v)),
            Option::None => Some(Some(d)),
        },
    }
}

/// The bindings of all declared parameters, in declaration order; `None`
/// when any mandatory parameter is missing.
pub open spec fn spec_resolve_params(
    pairs: Seq<(Seq<char>, Seq<char>)>,
    qps: Seq<QueryParamModel>,
) -> Option<Seq<(Seq<char>, Option<Seq<char>>)>>
    decreases qps.len(),
{
    if qps.len() == 0 {
        Some(Seq::empty())
    } else {
        match (spec_resolve_params(pairs, qps.drop_last()), spec_resolve_param(
            pairs,
            qps.last(),
        )) {
            (Option::Some(rest), Option::Some(v)) => Some(
                rest.push((spec_param_name(qps.last()), v)),
            ),
            _ => None,
        }
    }
}

/// The first binding for `name` among a value's query arguments.
pub open spec fn spec_lookup_arg(
    args: Seq<(Seq<char>, Option<Seq<char>>)>,
    name: Seq<char>,
) -> Option<Option<Seq<char>>>
    decreases args.len(),
{
    if args.len() == 0 {
        None
    } else if args[0].0 == name {
        Some(args[0].1)
    } else {
        spec_lookup_arg(args.drop_first(), name)
    }
}

/// The pairs a value's bindings emit for the declared parameters, in
/// declaration order: a mandatory parameter must be bound and always
/// emits; an optional one emits only when bound and present; one with a
/// default emits only a present value that differs from the default.
pub open spec fn spec_emit_params(
    qps: Seq<QueryParamModel>,
    args: Seq<(Seq<char>, Option<Seq<char>>)>,
) -> Option<Seq<(Seq<char>, Seq<char>)>>
    decreases qps.len(),
{
    if qps.len() == 0 {
        Some(Seq::empty())
    } else {
        match spec_emit_params(qps.drop_last(), args) {
            Option::None => None,
            Option::Some(rest) => match qps.last() {
                QueryParamModel::Mandatory(name) => match spec_lookup_arg(args, name) {
                    Option::Some(Option::Some(v)) => Some(rest.push((name, v))),
                    _ => None,
                },
                QueryParamModel::Optional(name) => match spec_lookup_arg(args, name) {
                    Option::Some(Option::Some(v)) => Some(rest.push((name, v))),
                    _ => Some(rest),
                },
                QueryParamModel::WithDefaultValue(name, d) => match spec_lookup_arg(args, name) {
                    Option::Some(Option::Some(v)) => if v == d {
                        Some(rest)
                    } else {
                        Some(rest.push((name, v)))
                    },
                    _ => Some(rest),
                },
            },
        }
    }
}

/// One rendered pair: encoded key, `=`, encoded value.
pub open spec fn spec_render_pair(p: (Seq<char>, Seq<char>)) -> Seq<char> {
    query_encoded(p.0) + seq!['='] + query_encoded(p.1)
}

/// The rendered query string: the pairs, each `key=value`, joined with
/// `&`; empty when there are no pairs.
pub open spec fn spec_render_query(pairs: Seq<(Seq<char>, Seq<char>)>) -> Seq<char>
    decreases pairs.len(),
{
    if pairs.len() == 0 {
        Seq::empty()
    } else if pairs.len() == 1 {
        spec_render_pair(pairs[0])
    } else {
        spec_render_query(pairs.drop_last()) + seq!['&'] + spec_render_pair(pairs.last())
    }
}

/// The rendered text of each pair.
pub open spec fn pair_texts(pairs: Seq<(Seq<char>, Seq<char>)>) -> Seq<Seq<char>> {
    Seq::new(pairs.len(), |i: int| spec_render_pair(pairs[i]))
}

/// The rendered query string is the pair texts joined with `&`.
proof fn lemma_render_query_as_join(pairs: Seq<(Seq<char>, Seq<char>)>)
    ensures
        spec_render_query(pairs) == crate::text::join_char(pair_texts(pairs), '&'),
    decreases pairs.len(),
{
    let ts = pair_texts(pairs);
    if pairs.len() == 0 {
        assert(spec_render_query(pairs) =~= crate::text::join_char(ts, '&'));
    } else if pairs.len() == 1 {
        assert(ts.len() == 1);
        assert(crate::text::join_char(ts, '&') == ts[0]);
        assert(spec_render_query(pairs) =~= crate::text::join_char(ts, '&'));
    } else {
        lemma_render_query_as_join(pairs.drop_last());
        assert(pair_texts(pairs.drop_last()) =~= ts.drop_last());
        assert(ts.last() == spec_render_pair(pairs.last()));
        assert(spec_render_query(pairs) =~= crate::text::join_char(ts.drop_last(), '&')
            + seq!['&'] + ts.last());
        assert(crate::text::join_char(ts, '&') == crate::text::join_char(ts.drop_last(), '&')
            + seq!['&'] + ts.last());
    }
}

/// A character of an encoded query value is never `&` or `=`.
proof fn lemma_query_char_plain(v: Seq<char>, k: int)
    requires
        0 <= k < query_encoded(v).len(),
    ensures
        query_encoded(v)[k] != '&',
        query_encoded(v)[k] != '=',
{
    crate::percent::lemma_query_encoded_chars(v);
    let ch = query_encoded(v)[k];
    assert(crate::percent::keep_byte(ch as u8) || ch == '%' || ch == '+');
    if ch == '&' {
        assert(ch as u32 == 38);
        assert(!crate::percent::keep_byte(38u8));
        assert('%' as u32 == 37 && '+' as u32 == 43);
    }
    if ch == '=' {
        assert(ch as u32 == 61);
        assert(!crate::percent::keep_byte(61u8));
        assert('%' as u32 == 37 && '+' as u32 == 43);
    }
}

/// Parsing one rendered pair gives the pair back.
proof fn lemma_parse_pair_round_trip(p: (Seq<char>, Seq<char>))
    ensures
        spec_parse_pair(spec_render_pair(p)) == Some(p),
{
    let ek = query_encoded(p.0);
    let ev = query_encoded(p.1);
    let t = spec_render_pair(p);
    assert(t =~= ek + (seq!['='] + ev));
    assert(forall|i: int| 0 <= i < ek.len() ==> ek[i] != '=') by {
        assert forall|i: int| 0 <= i < ek.len() implies ek[i] != '=' by {
            lemma_query_char_plain(p.0, i);
        }
    }
    crate::text::lemma_find_char_concat(ek, seq!['='] + ev, '=');
    assert(find_char(seq!['='] + ev, '=') == 0) by {
        assert((seq!['='] + ev)[0] == '=');
    }
    assert(find_char(t, '=') == ek.len());
    assert(t.take(ek.len() as int) =~= ek);
    assert(t.skip(ek.len() as int + 1) =~= ev);
    crate::percent::lemma_query_round_trip(p.0);
    crate::percent::lemma_query_round_trip(p.1);
}

/// Parsing the rendered pieces gives the pairs back.
proof fn lemma_parse_pieces_round_trip(pairs: Seq<(Seq<char>, Seq<char>)>)
    ensures
        spec_parse_pieces(pair_texts(pairs)) == Some(pairs),
    decreases pairs.len(),
{
    let ts = pair_texts(pairs);
    if pairs.len() == 0 {
        assert(spec_parse_pieces(ts) =~= Some(pairs));
    } else {
        lemma_parse_pieces_round_trip(pairs.drop_last());
        assert(pair_texts(pairs.drop_last()) =~= ts.drop_last());
        assert(ts.last() == spec_render_pair(pairs.last()));
        lemma_parse_pair_round_trip(pairs.last());
        assert(spec_parse_pieces(ts)->Some_0 =~= pairs);
    }
}

/// Rendering pairs and parsing the text back gives the pairs: the query
/// codec round-trips on every pair list.
pub proof fn lemma_query_string_round_trip(pairs: Seq<(Seq<char>, Seq<char>)>)
    ensures
        spec_parse_query(spec_render_query(pairs)) == Some(pairs),
{
    let qs = spec_render_query(pairs);
    if pairs.len() == 0 {
        assert(qs =~= Seq::<char>::empty());
        assert(spec_parse_query(qs) =~= Some(pairs));
    } else {
        lemma_render_query_as_join(pairs);
        let ts = pair_texts(pairs);
        assert(forall|i: int, j: int|
            0 <= i < ts.len() && 0 <= j < ts[i].len() ==> ts[i][j] != '&') by {
            assert forall|i: int, j: int|
                0 <= i < ts.len() && 0 <= j < ts[i].len() implies ts[i][j] != '&' by {
                let p = pairs[i];
                let ek = query_encoded(p.0);
                let ev = query_encoded(p.1);
                assert(ts[i] =~= ek + (seq!['='] + ev));
                if j < ek.len() {
                    assert(ts[i][j] == ek[j]);
                    lemma_query_char_plain(p.0, j);
                } else if j == ek.len() {
                    assert(ts[i][j] == '=');
                } else {
                    assert(ts[i][j] == ev[j - ek.len() - 1]);
                    lemma_query_char_plain(p.1, j - ek.len() - 1);
                }
            }
        }
        crate::text::lemma_split_join(ts, '&');
        assert(qs.len() > 0) by {
            assert(ts[0].len() > 0) by {
                let p = pairs[0];
                assert(ts[0] =~= query_encoded(p.0) + (seq!['='] + query_encoded(p.1)));
            }
            if pairs.len() == 1 {
                assert(qs == ts[0]);
            } else {
                crate::text::lemma_join_char_front(ts, '&');
                assert(qs == ts[0] + seq!['&'] + crate::text::join_char(ts.drop_first(), '&'));
            }
        }
        lemma_parse_pieces_round_trip(pairs);
    }
}

/// Whether a value's query bindings are canonical for the declared
/// parameters: one binding per parameter, in declaration order, under the
/// parameter's field name, with no name repeated, and a present value
/// wherever the mode requires one.
pub open spec fn canonical_query(
    qps: Seq<QueryParamModel>,
    args: Seq<(Seq<char>, Option<Seq<char>>)>,
) -> bool {
    &&& args.len() == qps.len()
    &&& (forall|i: int|
        0 <= i < qps.len() ==> (#[trigger] args[i]).0 == spec_param_name(qps[i]))
    &&& (forall|i: int, j: int|
        0 <= i < j < qps.len() ==> spec_param_name(#[trigger] qps[i]) != spec_param_name(
            #[trigger] qps[j],
        ))
    &&& (forall|i: int|
        0 <= i < qps.len() ==> match #[trigger] qps[i] {
            QueryParamModel::Mandatory(_) => args[i].1 is Some,
            QueryParamModel::Optional(_) => true,
            QueryParamModel::WithDefaultValue(_, _) => args[i].1 is Some,
        })
}

/// The pair one declared parameter emits for its binding, if any.
pub open spec fn expected_pair(qp: QueryParamModel, v: Option<Seq<char>>) -> Option<
    (Seq<char>, Seq<char>),
> {
    match qp {
        QueryParamModel::Mandatory(n) => match v {
            Option::Some(x) => Some((n, x)),
            Option::None => None,
        },
        QueryParamModel::Optional(n) => match v {
            Option::Some(x) => Some((n, x)),
            Option::None => None,
        },
        QueryParamModel::WithDefaultValue(n, d) => match v {
            Option::Some(x) => if x == d {
                None
            } else {
                Some((n, x))
            },
            Option::None => None,
        },
    }
}

/// The pairs the declared parameters emit, parameter by parameter.
pub open spec fn emitted_pairs(
    qps: Seq<QueryParamModel>,
    args: Seq<(Seq<char>, Option<Seq<char>>)>,
) -> Seq<(Seq<char>, Seq<char>)>
    decreases qps.len(),
{
    if qps.len() == 0 || args.len() == 0 {
        Seq::empty()
    } else {
        emitted_pairs(qps.drop_last(), args.drop_last()) + (match expected_pair(
            qps.last(),
            args.last().1,
        ) {
            Option::None => Seq::empty(),
            Option::Some(p) => seq![p],
        })
    }
}

/// Looking a name up among the bindings finds the one that carries it,
/// when no earlier binding does.
proof fn lemma_lookup_arg_at(args: Seq<(Seq<char>, Option<Seq<char>>)>, k: int)
    requires
        0 <= k < args.len(),
        forall|k2: int| 0 <= k2 < k ==> (#[trigger] args[k2]).0 != args[k].0,
    ensures
        spec_lookup_arg(args, args[k].0) == Some(args[k].1),
    decreases k,
{
    if k > 0 {
        assert(forall|k2: int|
            0 <= k2 < k - 1 ==> (#[trigger] args.drop_first()[k2]) == args[k2 + 1]);
        assert(args.drop_first()[k - 1] == args[k]);
        lemma_lookup_arg_at(args.drop_first(), k - 1);
    }
}

/// Emission under canonical bindings succeeds and is the parameter-wise
/// expected pairs.
proof fn lemma_emit_canonical(
    qps: Seq<QueryParamModel>,
    args: Seq<(Seq<char>, Option<Seq<char>>)>,
    m: int,
)
    requires
        canonical_query(qps, args),
        0 <= m <= qps.len(),
    ensures
        spec_emit_params(qps.take(m), args) == Some(emitted_pairs(qps.take(m), args.take(m))),
    decreases m,
{
    if m == 0 {
        assert(qps.take(0) =~= Seq::<QueryParamModel>::empty());
        assert(args.take(0) =~= Seq::<(Seq<char>, Option<Seq<char>>)>::empty());
    } else {
        lemma_emit_canonical(qps, args, m - 1);
        let qpre = qps.take(m);
        let apre = args.take(m);
        assert(qpre.drop_last() =~= qps.take(m - 1));
        assert(qpre.last() == qps[m - 1]);
        assert(apre.drop_last() =~= args.take(m - 1));
        assert(apre.last() == args[m - 1]);
        assert(forall|k2: int| 0 <= k2 < m - 1 ==> (#[trigger] args[k2]).0 != args[m - 1].0) by {
            assert(forall|k2: int|
                0 <= k2 < m - 1 ==> (#[trigger] args[k2]).0 == spec_param_name(qps[k2]));
            assert(args[m - 1].0 == spec_param_name(qps[m - 1]));
        }
        lemma_lookup_arg_at(args, m - 1);
        assert(spec_lookup_arg(args, spec_param_name(qps[m - 1])) == Some(args[m - 1].1));
        assert(spec_emit_params(qpre, args) =~= Some(emitted_pairs(qpre, apre)));
    }
}

/// A name no declared parameter carries finds nothing among the emitted
/// pairs.
proof fn lemma_emitted_absent(
    qps: Seq<QueryParamModel>,
    args: Seq<(Seq<char>, Option<Seq<char>>)>,
    key: Seq<char>,
)
    requires
        qps.len() == args.len(),
        forall|i: int| 0 <= i < qps.len() ==> spec_param_name(#[trigger] qps[i]) != key,
    ensures
        spec_last_value(emitted_pairs(qps, args), key) is None,
    decreases qps.len(),
{
    if qps.len() > 0 {
        assert(forall|i: int|
            0 <= i < qps.drop_last().len() ==> (#[trigger] qps.drop_last()[i]) == qps[i]);
        lemma_emitted_absent(qps.drop_last(), args.drop_last(), key);
        let p = emitted_pairs(qps, args);
        match expected_pair(qps.last(), args.last().1) {
            Option::None => {
                assert(p =~= emitted_pairs(qps.drop_last(), args.drop_last()));
            },
            Option::Some(e) => {
                assert(e.0 == spec_param_name(qps.last()));
                assert(p.last() == e);
                assert(p.drop_last() =~= emitted_pairs(qps.drop_last(), args.drop_last()));
            },
        }
    }
}

/// The last value under a declared parameter's name among the emitted
/// pairs is exactly what the parameter emitted.
proof fn lemma_last_value_emitted(
    qps: Seq<QueryParamModel>,
    args: Seq<(Seq<char>, Option<Seq<char>>)>,
    i: int,
)
    requires
        canonical_query(qps, args),
        0 <= i < qps.len(),
    ensures
        spec_last_value(emitted_pairs(qps, args), spec_param_name(qps[i])) == (match expected_pair(
            qps[i],
            args[i].1,
        ) {
            Option::Some(p) => Some(p.1),
            Option::None => None,
        }),
    decreases qps.len(),
{
    let p = emitted_pairs(qps, args);
    let key = spec_param_name(qps[i]);
    if i == qps.len() - 1 {
        match expected_pair(qps.last(), args.last().1) {
            Option::Some(e) => {
                assert(e.0 == key);
                assert(p.last() == e);
            },
            Option::None => {
                assert(p =~= emitted_pairs(qps.drop_last(), args.drop_last()));
                assert(forall|j: int|
                    0 <= j < qps.drop_last().len() ==> spec_param_name(
                        #[trigger] qps.drop_last()[j],
                    ) != key) by {
                    assert(forall|j: int|
                        0 <= j < qps.len() - 1 ==> (#[trigger] qps.drop_last()[j]) == qps[j]);
                }
                lemma_emitted_absent(qps.drop_last(), args.drop_last(), key);
            },
        }
    } else {
        assert(canonical_query(qps.drop_last(), args.drop_last())) by {
            assert(forall|j: int|
                0 <= j < qps.len() - 1 ==> (#[trigger] qps.drop_last()[j]) == qps[j]);
            assert(forall|j: int|
                0 <= j < args.len() - 1 ==> (#[trigger] args.drop_last()[j]) == args[j]);
        }
        assert(qps.drop_last()[i] == qps[i]);
        assert(args.drop_last()[i] == args[i]);
        lemma_last_value_emitted(qps.drop_last(), args.drop_last(), i);
        match expected_pair(qps.last(), args.last().1) {
            Option::None => {
                assert(p =~= emitted_pairs(qps.drop_last(), args.drop_last()));
            },
            Option::Some(e) => {
                assert(e.0 == spec_param_name(qps.last()));
                assert(spec_param_name(qps.last()) != key);
                assert(p.last() == e);
                assert(p.drop_last() =~= emitted_pairs(qps.drop_last(), args.drop_last()));
            },
        }
    }
}

/// Resolving the emitted pairs gives the canonical bindings back.
proof fn lemma_resolve_emitted(
    qps: Seq<QueryParamModel>,
    args: Seq<(Seq<char>, Option<Seq<char>>)>,
    m: int,
)
    requires
        canonical_query(qps, args),
        0 <= m <= qps.len(),
    ensures
        spec_resolve_params(emitted_pairs(qps, args), qps.take(m)) == Some(args.take(m)),
    decreases m,
{
    if m == 0 {
        assert(qps.take(0) =~= Seq::<QueryParamModel>::empty());
        assert(args.take(0) =~= Seq::<(Seq<char>, Option<Seq<char>>)>::empty());
    } else {
        lemma_resolve_emitted(qps, args, m - 1);
        lemma_last_value_emitted(qps, args, m - 1);
        let qpre = qps.take(m);
        assert(qpre.drop_last() =~= qps.take(m - 1));
        assert(qpre.last() == qps[m - 1]);
        assert(args.take(m) =~= args.take(m - 1).push(args[m - 1]));
        assert(args[m - 1].0 == spec_param_name(qps[m - 1]));
        assert(spec_resolve_params(emitted_pairs(qps, args), qpre) =~= Some(args.take(m)));
    }
}

/// Emitting canonical bindings and resolving the emitted pairs gives the
/// bindings back: a mandatory value always survives, an absent optional
/// stays absent, and a value equal to its default is restored from the
/// default.
pub proof fn lemma_emit_resolve_round_trip(
    qps: Seq<QueryParamModel>,
    args: Seq<(Seq<char>, Option<Seq<char>>)>,
)
    requires
        canonical_query(qps, args),
    ensures
        spec_emit_params(qps, args) matches Some(pairs) && spec_resolve_params(pairs, qps) == Some(
            args,
        ),
{
    lemma_emit_canonical(qps, args, qps.len() as int);
    lemma_resolve_emitted(qps, args, qps.len() as int);
    assert(qps.take(qps.len() as int) =~= qps);
    assert(args.take(qps.len() as int) =~= args);
    assert(args.take(args.len() as int) =~= args);
}

/// Decode one `&`-separated piece of a query string.
fn parse_pair(p: &str) -> (r: Option<QueryPair>)
    ensures
        r matches Some(pr) ==> spec_parse_pair(p@) == Some(pr@),
        r is None ==> spec_parse_pair(p@) is None,
{
    let n = p.unicode_len();
    proof {
        crate::text::lemma_find_char(p@, '=');
    }
    let (key_raw, val_raw) = match find_in_str(p, '=') {
        Some(idx) => {
            let k = p.substring_char(0, idx);
            let v = p.substring_char(idx + 1, n);
            proof {
                crate::text::lemma_find_char(p@, '=');
                assert(k@ =~= p@.take(find_char(p@, '=')));
                assert(v@ =~= p@.skip(find_char(p@, '=') + 1));
            }
            (k, v)
        },
        None => {
            let k = p.substring_char(0, n);
            let v = p.substring_char(n, n);
            proof {
                assert(k@ =~= p@);
                assert(v@ =~= Seq::<char>::empty());
            }
            (k, v)
        },
    };
    let key = match decode_query_value(key_raw) {
        Some(k) => k,
        None => {
            return None;
        },
    };
    let value = match decode_query_value(val_raw) {
        Some(v) => v,
        None => {
            return None;
        },
    };
    Some(QueryPair { key, value })
}

/// Decode the text after `?` into its key-value pairs; `None` when any
/// piece fails to decode.
#[verifier::loop_isolation(false)]
pub fn parse_query(q: &str) -> (r: Option<Vec<QueryPair>>)
    ensures
        r matches Some(pairs) ==> spec_parse_query(q@) == Some(pairs.deep_view()),
        r is None ==> spec_parse_query(q@) is None,
{
    if q.is_empty() {
        let out: Vec<QueryPair> = Vec::new();
        assert(out.deep_view() =~= Seq::<(Seq<char>, Seq<char>)>::empty());
        return Some(out);
    }
    let pieces = split_str(q, '&');
    let ghost ps = split_char(q@, '&');
    let mut out: Vec<QueryPair> = Vec::new();
    let mut i: usize = 0;
    while i < pieces.len()
        invariant
            0 <= i <= pieces.len(),
            spec_parse_pieces(ps.take(i as int)) == Some(out.deep_view()),
        decreases pieces.len() - i,
    {
        proof {
            assert(ps[i as int] == pieces[i as int]@);
            assert(ps.take(i + 1 as int).drop_last() =~= ps.take(i as int));
            assert(ps.take(i + 1 as int).last() == ps[i as int]);
        }
        match parse_pair(pieces[i].as_str()) {
            Some(pr) => {
                let ghost prev = out.deep_view();
                out.push(pr);
                proof {
                    assert(out.deep_view() =~= prev.push(out@.last()@));
                }
            },
            None => {
                proof {
                    lemma_parse_pieces_none(ps, i as int);
                }
                return None;
            },
        }
        i += 1;
    }
    proof {
        assert(ps.take(ps.len() as int) =~= ps);
    }
    Some(out)
}

/// A piece that fails to decode poisons the whole list.
proof fn lemma_parse_pieces_none(ps: Seq<Seq<char>>, i: int)
    requires
        0 <= i < ps.len(),
        spec_parse_pair(ps[i]) is None,
    ensures
        spec_parse_pieces(ps) is None,
    decreases ps.len(),
{
    if i < ps.len() - 1 {
        assert(ps.drop_last()[i] == ps[i]);
        lemma_parse_pieces_none(ps.drop_last(), i);
    }
}

/// The value of the last pair with the given key.
fn last_value(pairs: &Vec<QueryPair>, key: &String) -> (r: Option<String>)
    ensures
        r matches Some(v) ==> spec_last_value(pairs.deep_view(), key@) == Some(v@),
        r is None ==> spec_last_value(pairs.deep_view(), key@) is None,
{
    let ghost pv = pairs.deep_view();
    proof {
        assert(pv.take(pairs.len() as int) =~= pv);
    }
    let mut i: usize = pairs.len();
    while i > 0
        invariant
            0 <= i <= pairs.len(),
            pairs.deep_view() == pv,
            spec_last_value(pv, key@) == spec_last_value(pv.take(i as int), key@),
        decreases i,
    {
        i -= 1;
        proof {
            assert(pv.take(i + 1 as int).drop_last() =~= pv.take(i as int));
            assert(pv.take(i + 1 as int).last() == pv[i as int]);
            assert(pv[i as int] == pairs[i as int]@);
        }
        if pairs[i].key.eq(key) {
            return Some(pairs[i].value.clone());
        }
    }
    proof {
        assert(pv.take(0) =~= Seq::<(Seq<char>, Seq<char>)>::empty());
    }
    None
}

/// Resolve the declared parameters against the decoded pairs, in
/// declaration order; `None` exactly when a mandatory parameter is absent.
#[verifier::loop_isolation(false)]
pub fn resolve_params(pairs: &Vec<QueryPair>, qps: &Vec<QueryParam>) -> (r: Option<Vec<QueryArg>>)
    ensures
        r matches Some(args) ==> spec_resolve_params(pairs.deep_view(), qps.deep_view()) == Some(
            args.deep_view(),
        ),
        r is None ==> spec_resolve_params(pairs.deep_view(), qps.deep_view()) is None,
{
    let ghost qv = qps.deep_view();
    let mut out: Vec<QueryArg> = Vec::new();
    let mut i: usize = 0;
    while i < qps.len()
        invariant
            0 <= i <= qps.len(),
            spec_resolve_params(pairs.deep_view(), qv.take(i as int)) == Some(out.deep_view()),
        decreases qps.len() - i,
    {
        proof {
            assert(qv[i as int] == qps[i as int]@);
            assert(qv.take(i + 1 as int).drop_last() =~= qv.take(i as int));
            assert(qv.take(i + 1 as int).last() == qv[i as int]);
        }
        let ghost prev = out.deep_view();
        match &qps[i] {
            QueryParam::Mandatory(name) => match last_value(pairs, name) {
                Some(v) => {
                    out.push(QueryArg { name: name.clone(), value: Some(v) });
                },
                None => {
                    proof {
                        lemma_resolve_params_none(pairs.deep_view(), qv, i as int);
                    }
                    return None;
                },
            },
            QueryParam::Optional(name) => {
                let v = last_value(pairs, name);
                out.push(QueryArg { name: name.clone(), value: v });
            },
            QueryParam::WithDefaultValue(name, d) => match last_value(pairs, name) {
                Some(v) => {
                    out.push(QueryArg { name: name.clone(), value: Some(v) });
                },
                None => {
                    out.push(QueryArg { name: name.clone(), value: Some(d.clone()) });
                },
            },
        }
        proof {
            assert(out.deep_view() =~= prev.push(out@.last()@));
        }
        i += 1;
    }
    proof {
        assert(qv.take(qps.len() as int) =~= qv);
    }
    Some(out)
}

/// A missing mandatory parameter poisons the whole resolution.
proof fn lemma_resolve_params_none(
    pairs: Seq<(Seq<char>, Seq<char>)>,
    qps: Seq<QueryParamModel>,
    i: int,
)
    requires
        0 <= i < qps.len(),
        spec_resolve_param(pairs, qps[i]) is None,
    ensures
        spec_resolve_params(pairs, qps) is None,
    decreases qps.len(),
{
    if i < qps.len() - 1 {
        assert(qps.drop_last()[i] == qps[i]);
        lemma_resolve_params_none(pairs, qps.drop_last(), i);
    }
}

/// The first binding for `name` among a value's query arguments.
fn lookup_arg(args: &Vec<QueryArg>, name: &String) -> (r: Option<Option<String>>)
    ensures
        r matches Some(v) ==> ({
            let s = spec_lookup_arg(args.deep_view(), name@);
            s matches Some(sv) && sv == (match v {
                Option::None => None,
                Option::Some(x) => Some(x@),
            })
        }),
        r is None ==> spec_lookup_arg(args.deep_view(), name@) is None,
{
    let ghost av = args.deep_view();
    proof {
        assert(av.skip(0) =~= av);
    }
    let mut i: usize = 0;
    while i < args.len()
        invariant
            0 <= i <= args.len(),
            args.deep_view() == av,
            spec_lookup_arg(av, name@) == spec_lookup_arg(av.skip(i as int), name@),
        decreases args.len() - i,
    {
        proof {
            assert(av.skip(i as int)[0] == av[i as int]);
            assert(av[i as int] == args[i as int]@);
            assert(av.skip(i as int).drop_first() =~= av.skip(i + 1 as int));
        }
        if args[i].name.eq(name) {
            let v: Option<String> = match &args[i].value {
                Option::None => None,
                Option::Some(x) => Some(x.clone()),
            };
            return Some(v);
        }
        i += 1;
    }
    proof {
        assert(av.skip(args.len() as int) =~= Seq::<(Seq<char>, Option<Seq<char>>)>::empty());
    }
    None
}

/// The pairs a value's bindings emit for the declared parameters; `None`
/// exactly when a mandatory parameter is unbound or bound absent.
#[verifier::loop_isolation(false)]
pub fn emit_params(qps: &Vec<QueryParam>, args: &Vec<QueryArg>) -> (r: Option<Vec<QueryPair>>)
    ensures
        r matches Some(pairs) ==> spec_emit_params(qps.deep_view(), args.deep_view()) == Some(
            pairs.deep_view(),
        ),
        r is None ==> spec_emit_params(qps.deep_view(), args.deep_view()) is None,
{
    let ghost qv = qps.deep_view();
    let ghost av = args.deep_view();
    let mut out: Vec<QueryPair> = Vec::new();
    let mut i: usize = 0;
    while i < qps.len()
        invariant
            0 <= i <= qps.len(),
            spec_emit_params(qv.take(i as int), av) == Some(out.deep_view()),
        decreases qps.len() - i,
    {
        proof {
            assert(qv[i as int] == qps[i as int]@);
            assert(qv.take(i + 1 as int).drop_last() =~= qv.take(i as int));
            assert(qv.take(i + 1 as int).last() == qv[i as int]);
        }
        let ghost prev = out.deep_view();
        match &qps[i] {
            QueryParam::Mandatory(name) => match lookup_arg(args, name) {
                Some(Some(v)) => {
                    out.push(QueryPair { key: name.clone(), value: v });
                    proof {
                        assert(out.deep_view() =~= prev.push(out@.last()@));
                    }
                },
                _ => {
                    proof {
                        lemma_emit_params_none(qv, av, i as int);
                    }
                    return None;
                },
            },
            QueryParam::Optional(name) => match lookup_arg(args, name) {
                Some(Some(v)) => {
                    out.push(QueryPair { key: name.clone(), value: v });
                    proof {
                        assert(out.deep_view() =~= prev.push(out@.last()@));
                    }
                },
                _ => {},
            },
            QueryParam::WithDefaultValue(name, d) => match lookup_arg(args, name) {
                Some(Some(v)) => {
                    if !v.eq(d) {
                        out.push(QueryPair { key: name.clone(), value: v });
                        proof {
                            assert(out.deep_view() =~= prev.push(out@.last()@));
                        }
                    }
                },
                _ => {},
            },
        }
        i += 1;
    }
    proof {
        assert(qv.take(qps.len() as int) =~= qv);
    }
    Some(out)
}

/// A mandatory parameter without a present binding poisons the emission.
proof fn lemma_emit_params_none(
    qps: Seq<QueryParamModel>,
    args: Seq<(Seq<char>, Option<Seq<char>>)>,
    i: int,
)
    requires
        0 <= i < qps.len(),
        qps[i] matches QueryParamModel::Mandatory(name) && !(spec_lookup_arg(args, name) matches
            Some(Some(_))),
    ensures
        spec_emit_params(qps, args) is None,
    decreases qps.len(),
{
    if i < qps.len() - 1 {
        assert(qps.drop_last()[i] == qps[i]);
        lemma_emit_params_none(qps.drop_last(), args, i);
    }
}

/// Render the pairs as `key=value`, encoded and joined with `&`.
#[verifier::loop_isolation(false)]
pub fn render_query(pairs: &Vec<QueryPair>) -> (r: String)
    ensures
        r@ == spec_render_query(pairs.deep_view()),
{
    let ghost pv = pairs.deep_view();
    let mut out = String::new();
    let mut i: usize = 0;
    while i < pairs.len()
        invariant
            0 <= i <= pairs.len(),
            out@ == spec_render_query(pv.take(i as int)),
        decreases pairs.len() - i,
    {
        proof {
            assert(pv[i as int] == pairs[i as int]@);
            assert(pv.take(i + 1 as int).drop_last() =~= pv.take(i as int));
            assert(pv.take(i + 1 as int).last() == pv[i as int]);
        }
        if i > 0 {
            out.append("&");
            proof {
                reveal_strlit("&");
                assert("&"@ =~= seq!['&']);
            }
        }
        let ek = encode_query_value(pairs[i].key.as_str());
        out.append(ek.as_str());
        out.append("=");
        proof {
            reveal_strlit("=");
            assert("="@ =~= seq!['=']);
        }
        let ev = encode_query_value(pairs[i].value.as_str());
        out.append(ev.as_str());
        proof {
            if i > 0 {
                assert(out@ =~= spec_render_query(pv.take(i + 1 as int)));
            } else {
                assert(pv.take(1).len() == 1);
                assert(pv.take(1)[0] == pv[0]);
                assert(out@ =~= spec_render_pair(pv[0]));
                assert(out@ =~= spec_render_query(pv.take(i + 1 as int)));
            }
        }
        i += 1;
    }
    proof {
        assert(pv.take(pairs.len() as int) =~= pv);
    }
    out
}

} // verus!
