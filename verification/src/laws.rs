//! Laws of the engine: properties that hold of every router, stated and
//! proved against the specification functions the public contracts use.

use vstd::prelude::*;
use crate::pattern::ComponentModel;
use crate::pattern::PathModel;
use crate::pattern::spec_params;
use crate::percent::lemma_percent_encoded_chars;
use crate::percent::lemma_percent_encoded_nonempty;
use crate::percent::lemma_percent_round_trip;
use crate::percent::keep_byte;
use crate::percent::percent_encoded;
use crate::router::pattern_matches;
use crate::router::qualifies;
use crate::router::spec_arg_name;
use crate::router::spec_bind_args;
use crate::router::spec_generate_url;
use crate::router::spec_lookup_route_arg;
use crate::router::spec_parse_url;
use crate::router::spec_render_fixed;
use crate::router::RouteModel;
use crate::router::ValueModel;
use crate::text::find_char;
use crate::text::join_char;
use crate::text::lemma_split_join;
use crate::text::split_char;

verus! {

/// A pattern without a sub-route and the path must agree exactly on the
/// trailing slash: a pattern that requires it never matches a path
/// lacking it, and one that forbids it never matches a path carrying it.
pub proof fn lemma_trailing_slash_exact(p: PathModel, segs: Seq<Seq<char>>, trailing: bool)
    requires
        p.sub_route is None,
        p.trailing_slash != trailing,
    ensures
        !pattern_matches(p, segs, trailing),
{
}

/// The empty URL is treated exactly like `/`: parsing yields the same
/// result on every router, whichever decoding is asked for.
pub proof fn lemma_parse_empty_as_slash(tables: Seq<Seq<RouteModel>>, decode: bool)
    ensures
        spec_parse_url(tables, Seq::empty(), decode) == spec_parse_url(tables, seq!['/'], decode),
{
    reveal_with_fuel(find_char, 3);
    reveal_with_fuel(split_char, 3);
    let e = Seq::<char>::empty();
    let s = seq!['/'];
    assert('/' != '?');
    assert(find_char(e, '?') == -1);
    assert(s.drop_first() =~= e);
    assert(find_char(s, '?') == -1);
    assert(crate::query::spec_parse_query(e) == Some(Seq::<(Seq<char>, Seq<char>)>::empty()));
    assert(crate::router::spec_segments(e) == crate::router::spec_segments(s)) by {
        assert(split_char(e, '/') =~= seq![e]);
        assert(crate::router::spec_segments(e).0 =~= Seq::<Seq<char>>::empty());
        assert(crate::router::spec_segments(e).1);
        assert(split_char(s.drop_first(), '/') =~= seq![e]);
        assert(crate::router::spec_segments(s).0 =~= Seq::<Seq<char>>::empty());
        assert(crate::router::spec_segments(s).1);
    }
    assert(crate::router::spec_parse_at(
        tables,
        0,
        e,
        None,
        decode,
        Seq::<(Seq<char>, Seq<char>)>::empty(),
    ) == crate::router::spec_parse_at(
        tables,
        0,
        s,
        None,
        decode,
        Seq::<(Seq<char>, Seq<char>)>::empty(),
    )) by {
        lemma_parse_at_segments(tables, 0, e, s, None, decode, Seq::empty());
    }
}

/// The texts the segments of a pattern render to: literal text verbatim,
/// parameters replaced by their bound, encoded values.
pub open spec fn seg_texts(
    cs: Seq<ComponentModel>,
    args: Seq<(Seq<char>, Seq<char>)>,
    encode: bool,
) -> Option<Seq<Seq<char>>>
    decreases cs.len(),
{
    if cs.len() == 0 {
        Some(Seq::empty())
    } else {
        match seg_texts(cs.drop_last(), args, encode) {
            Option::None => None,
            Option::Some(rest) => match cs.last() {
                ComponentModel::Literal(t) => Some(rest.push(t)),
                ComponentModel::Param(_) => match spec_lookup_route_arg(
                    args,
                    spec_arg_name(cs, cs.len() - 1),
                ) {
                    Option::None => None,
                    Option::Some(vv) => Some(
                        rest.push(
                            if encode {
                                percent_encoded(vv)
                            } else {
                                vv
                            },
                        ),
                    ),
                },
            },
        }
    }
}

/// The segment texts glued together, a `/` before each.
pub open spec fn slash_join(ts: Seq<Seq<char>>) -> Seq<char>
    decreases ts.len(),
{
    if ts.len() == 0 {
        Seq::empty()
    } else {
        slash_join(ts.drop_last()) + seq!['/'] + ts.last()
    }
}

/// The rendered fixed part is the segment texts glued with `/`.
proof fn lemma_render_structure(
    cs: Seq<ComponentModel>,
    args: Seq<(Seq<char>, Seq<char>)>,
    encode: bool,
)
    requires
        seg_texts(cs, args, encode) is Some,
    ensures
        spec_render_fixed(cs, args, encode) matches Some(h) && seg_texts(cs, args, encode) matches
            Some(ts) && h == slash_join(ts) && ts.len() == cs.len(),
    decreases cs.len(),
{
    if cs.len() > 0 {
        lemma_render_structure(cs.drop_last(), args, encode);
        let ts = seg_texts(cs, args, encode)->Some_0;
        assert(ts.drop_last() =~= seg_texts(cs.drop_last(), args, encode)->Some_0);
        assert(spec_render_fixed(cs, args, encode)->Some_0 =~= slash_join(ts));
    }
}

/// With a `/` in front, gluing segment texts is joining them.
proof fn lemma_slash_join_as_join(ts: Seq<Seq<char>>)
    requires
        ts.len() >= 1,
    ensures
        slash_join(ts) == seq!['/'] + join_char(ts, '/'),
    decreases ts.len(),
{
    reveal_with_fuel(slash_join, 3);
    if ts.len() == 1 {
        assert(ts.drop_last() =~= Seq::<Seq<char>>::empty());
        assert(join_char(ts, '/') == ts[0]);
        assert(slash_join(ts) =~= seq!['/'] + join_char(ts, '/'));
    } else {
        lemma_slash_join_as_join(ts.drop_last());
        assert(slash_join(ts) =~= seq!['/'] + join_char(ts, '/'));
    }
}

/// Every character of a joined piece list is the separator or a character
/// of one of the pieces.
proof fn lemma_join_chars(ts: Seq<Seq<char>>, c: char)
    ensures
        forall|j: int|
            0 <= j < join_char(ts, c).len() ==> (#[trigger] join_char(ts, c)[j] == c || exists|
                i: int,
                k: int,
            |
                0 <= i < ts.len() && 0 <= k < ts[i].len() && join_char(ts, c)[j] == ts[i][k]),
    decreases ts.len(),
{
    if ts.len() == 1 {
        assert forall|j: int| 0 <= j < join_char(ts, c).len() implies (#[trigger] join_char(
            ts,
            c,
        )[j] == c || exists|i: int, k: int|
            0 <= i < ts.len() && 0 <= k < ts[i].len() && join_char(ts, c)[j] == ts[i][k]) by {
            assert(join_char(ts, c)[j] == ts[0][j]);
        }
    } else if ts.len() >= 2 {
        lemma_join_chars(ts.drop_last(), c);
        let pre = join_char(ts.drop_last(), c);
        assert forall|j: int| 0 <= j < join_char(ts, c).len() implies (#[trigger] join_char(
            ts,
            c,
        )[j] == c || exists|i: int, k: int|
            0 <= i < ts.len() && 0 <= k < ts[i].len() && join_char(ts, c)[j] == ts[i][k]) by {
            if j < pre.len() {
                assert(join_char(ts, c)[j] == pre[j]);
                if pre[j] != c {
                    let (i, k): (int, int) = choose|i: int, k: int|
                        0 <= i < ts.drop_last().len() && 0 <= k < ts.drop_last()[i].len() && pre[j]
                            == ts.drop_last()[i][k];
                    assert(ts.drop_last()[i] == ts[i]);
                    assert(join_char(ts, c)[j] == ts[i][k]);
                }
            } else if j == pre.len() {
                assert(join_char(ts, c)[j] == c);
            } else {
                let k = j - pre.len() - 1;
                assert(join_char(ts, c)[j] == ts.last()[k]);
                assert(ts.last() == ts[ts.len() - 1]);
            }
        }
    }
}

/// A character of an encoded parameter is never `/` or `?`.
proof fn lemma_encoded_char_plain(v: Seq<char>, k: int)
    requires
        0 <= k < percent_encoded(v).len(),
    ensures
        percent_encoded(v)[k] != '/',
        percent_encoded(v)[k] != '?',
{
    lemma_percent_encoded_chars(v);
    let ch = percent_encoded(v)[k];
    assert(keep_byte(ch as u8) || ch == '%');
    if ch == '/' {
        assert(ch as u32 == 47);
        assert(!keep_byte(47u8));
        assert('%' as u32 == 37);
    }
    if ch == '?' {
        assert(ch as u32 == 63);
        assert(!keep_byte(63u8));
        assert('%' as u32 == 37);
    }
}

/// Whether a literal carries text a rendered URL can be split back out
/// of: non-empty and free of `/` and `?`.
pub open spec fn literal_ok(c: ComponentModel) -> bool {
    match c {
        ComponentModel::Literal(t) => t.len() > 0 && forall|j: int|
            0 <= j < t.len() ==> t[j] != '/' && t[j] != '?',
        ComponentModel::Param(_) => true,
    }
}

/// Whether a value's path arguments are in canonical form for a pattern:
/// one non-empty value per parameter, in pattern order, under the
/// parameter's binding name, with no name repeated.
pub open spec fn canonical_args(cs: Seq<ComponentModel>, args: Seq<(Seq<char>, Seq<char>)>) -> bool {
    &&& args.len() == spec_params(cs).len()
    &&& (forall|k1: int, k2: int|
        0 <= k1 < k2 < args.len() ==> (#[trigger] args[k1]).0 != (#[trigger] args[k2]).0)
    &&& (forall|i: int|
        (0 <= i < cs.len() && (#[trigger] cs[i]) matches ComponentModel::Param(_)) ==> {
            let k = spec_params(cs.take(i)).len() as int;
            0 <= k < args.len() && args[k].0 == spec_arg_name(cs, i) && args[k].1.len() > 0
        })
}

/// Looking a name up finds the binding that carries it, when no earlier
/// binding does.
proof fn lemma_lookup_at(args: Seq<(Seq<char>, Seq<char>)>, k: int)
    requires
        0 <= k < args.len(),
        forall|k2: int| 0 <= k2 < k ==> (#[trigger] args[k2]).0 != args[k].0,
    ensures
        spec_lookup_route_arg(args, args[k].0) == Some(args[k].1),
    decreases k,
{
    if k > 0 {
        assert(forall|k2: int|
            0 <= k2 < k - 1 ==> (#[trigger] args.drop_first()[k2]) == args[k2 + 1]);
        assert(args.drop_first()[k - 1] == args[k]);
        lemma_lookup_at(args.drop_first(), k - 1);
    }
}

/// The number of parameters grows by steps of at most one.
proof fn lemma_params_take(cs: Seq<ComponentModel>, m: int)
    requires
        0 < m <= cs.len(),
    ensures
        spec_params(cs.take(m)).len() == spec_params(cs.take(m - 1)).len() + (
        if cs[m - 1] matches ComponentModel::Param(_) {
            1int
        } else {
            0int
        }),
{
    assert(cs.take(m).drop_last() =~= cs.take(m - 1));
    assert(cs.take(m).last() == cs[m - 1]);
}

/// Under canonical arguments every parameter looks up to its own binding,
/// so the segment texts exist and are described exactly.
proof fn lemma_seg_texts_canonical(
    cs: Seq<ComponentModel>,
    args: Seq<(Seq<char>, Seq<char>)>,
    m: int,
)
    requires
        canonical_args(cs, args),
        0 <= m <= cs.len(),
    ensures
        seg_texts(cs.take(m), args, true) matches Some(ts) && ts.len() == m && (forall|i: int|
            0 <= i < m ==> #[trigger] ts[i] == (match cs[i] {
                ComponentModel::Literal(t) => t,
                ComponentModel::Param(_) => percent_encoded(
                    args[spec_params(cs.take(i)).len() as int].1,
                ),
            })),
    decreases m,
{
    if m == 0 {
        assert(cs.take(0) =~= Seq::<ComponentModel>::empty());
    } else {
        lemma_seg_texts_canonical(cs, args, m - 1);
        let pre = cs.take(m);
        assert(pre.drop_last() =~= cs.take(m - 1));
        assert(pre.last() == cs[m - 1]);
        match cs[m - 1] {
            ComponentModel::Literal(_t) => {},
            ComponentModel::Param(_) => {
                let k = spec_params(cs.take(m - 1)).len() as int;
                assert(0 <= k < args.len() && args[k].0 == spec_arg_name(cs, m - 1)
                    && args[k].1.len() > 0);
                assert(spec_arg_name(pre, m - 1) == spec_arg_name(cs, m - 1)) by {
                    assert(pre.take(m - 1) =~= cs.take(m - 1));
                    assert(pre[m - 1] == cs[m - 1]);
                }
                assert(forall|k2: int| 0 <= k2 < k ==> (#[trigger] args[k2]).0 != args[k].0);
                lemma_lookup_at(args, k);
                assert(spec_lookup_route_arg(args, spec_arg_name(pre, m - 1)) == Some(args[k].1));
            },
        }
        let ts = seg_texts(pre, args, true)->Some_0;
        let ts0 = seg_texts(cs.take(m - 1), args, true)->Some_0;
        assert(ts =~= ts0.push(ts[m - 1]));
        assert(forall|i: int| 0 <= i < m - 1 ==> #[trigger] ts[i] == ts0[i]);
    }
}

/// Binding the rendered segment texts gives the canonical arguments back.
proof fn lemma_bind_round_trip(
    cs: Seq<ComponentModel>,
    args: Seq<(Seq<char>, Seq<char>)>,
    ts: Seq<Seq<char>>,
    m: int,
)
    requires
        canonical_args(cs, args),
        ts.len() >= cs.len(),
        forall|i: int|
            0 <= i < cs.len() ==> #[trigger] ts[i] == (match cs[i] {
                ComponentModel::Literal(t) => t,
                ComponentModel::Param(_) => percent_encoded(
                    args[spec_params(cs.take(i)).len() as int].1,
                ),
            }),
        0 <= m <= cs.len(),
    ensures
        spec_bind_args(cs.take(m), ts, true) == Some(args.take(spec_params(cs.take(m)).len() as int)),
    decreases m,
{
    crate::pattern::lemma_spec_params_len(cs);
    if m == 0 {
        assert(cs.take(0) =~= Seq::<ComponentModel>::empty());
        assert(args.take(0) =~= Seq::<(Seq<char>, Seq<char>)>::empty());
    } else {
        lemma_bind_round_trip(cs, args, ts, m - 1);
        lemma_params_take(cs, m);
        let pre = cs.take(m);
        assert(pre.drop_last() =~= cs.take(m - 1));
        assert(pre.last() == cs[m - 1]);
        match cs[m - 1] {
            ComponentModel::Literal(_t) => {
                assert(spec_params(cs.take(m)).len() == spec_params(cs.take(m - 1)).len());
            },
            ComponentModel::Param(_) => {
                let k = spec_params(cs.take(m - 1)).len() as int;
                assert(0 <= k < args.len() && args[k].0 == spec_arg_name(cs, m - 1)
                    && args[k].1.len() > 0);
                let v = args[k].1;
                assert(ts[m - 1] == percent_encoded(v));
                lemma_percent_round_trip(v);
                assert(spec_arg_name(pre, m - 1) == spec_arg_name(cs, m - 1)) by {
                    assert(pre.take(m - 1) =~= cs.take(m - 1));
                    assert(pre[m - 1] == cs[m - 1]);
                }
                assert(args.take(k + 1) =~= args.take(k).push(args[k]));
            },
        }
    }
}

/// The single entry of a one-case, one-pattern table.
proof fn lemma_single_flat(table: Seq<RouteModel>)
    requires
        table.len() == 1,
        table[0].localized_routes.len() == 1,
    ensures
        crate::router::spec_flat(table) == seq![(0int, 0int, table[0].localized_routes[0])],
{
    reveal_with_fuel(crate::router::spec_flat, 3);
    assert(table.drop_last() =~= Seq::<RouteModel>::empty());
    assert(table.last() == table[0]);
    assert(crate::router::spec_flat(table) =~= seq![(0int, 0int, table[0].localized_routes[0])]);
}

/// A single accepted, matching entry is the sole candidate and wins.
proof fn lemma_single_candidate(
    e: (int, int, crate::pattern::LocRouteModel),
    segs: Seq<Seq<char>>,
    trailing: bool,
    accepted: Option<Seq<Seq<char>>>,
    n: int,
)
    requires
        crate::locales::spec_accept(accepted, e.2.locales),
        pattern_matches(e.2.path, segs, trailing),
    ensures
        crate::router::spec_candidates(seq![e], segs, trailing, accepted) == seq![e],
        crate::router::spec_best(seq![e], n) == e,
{
    reveal_with_fuel(crate::router::spec_candidates, 3);
    let fl = seq![e];
    assert(fl.drop_last() =~= Seq::<(int, int, crate::pattern::LocRouteModel)>::empty());
    assert(fl.last() == e);
    assert(crate::router::spec_candidates(fl, segs, trailing, accepted) =~= fl);
}

/// Whether every character of every text is an ordinary segment
/// character: neither `/` nor `?`, with the text non-empty.
pub open spec fn texts_plain(ts: Seq<Seq<char>>) -> bool {
    forall|i: int|
        0 <= i < ts.len() ==> ((#[trigger] ts[i]).len() > 0 && forall|k: int|
            0 <= k < ts[i].len() ==> ts[i][k] != '/' && ts[i][k] != '?')
}

/// Under canonical arguments the rendered segment texts are plain.
proof fn lemma_ts_plain(cs: Seq<ComponentModel>, args: Seq<(Seq<char>, Seq<char>)>, ts: Seq<Seq<char>>)
    requires
        canonical_args(cs, args),
        forall|i: int|
            0 <= i < cs.len() ==> literal_ok(#[trigger] cs[i]),
        ts.len() == cs.len(),
        forall|i: int|
            0 <= i < cs.len() ==> #[trigger] ts[i] == (match cs[i] {
                ComponentModel::Literal(t) => t,
                ComponentModel::Param(_) => percent_encoded(
                    args[spec_params(cs.take(i)).len() as int].1,
                ),
            }),
    ensures
        texts_plain(ts),
{
    assert forall|i: int| 0 <= i < ts.len() implies ((#[trigger] ts[i]).len() > 0 && forall|k: int|
        0 <= k < ts[i].len() ==> ts[i][k] != '/' && ts[i][k] != '?') by {
        match cs[i] {
            ComponentModel::Literal(_t) => {
                assert(literal_ok(cs[i]));
            },
            ComponentModel::Param(_) => {
                let k0 = spec_params(cs.take(i)).len() as int;
                assert(args[k0].1.len() > 0);
                lemma_percent_encoded_nonempty(args[k0].1);
                assert forall|k: int| 0 <= k < ts[i].len() implies ts[i][k] != '/' && ts[i][k]
                    != '?' by {
                    lemma_encoded_char_plain(args[k0].1, k);
                }
            },
        }
    }
}

/// A path rendered from plain segment texts holds no `?` and splits back
/// into them.
proof fn lemma_base_facts(ts: Seq<Seq<char>>, trailing: bool, base: Seq<char>)
    requires
        ts.len() >= 1,
        texts_plain(ts),
        base == slash_join(ts) + (if trailing {
            seq!['/']
        } else {
            Seq::<char>::empty()
        }),
    ensures
        forall|j: int| 0 <= j < base.len() ==> base[j] != '?',
        crate::router::spec_segments(base) == (ts, trailing),
{
    let trailpart: Seq<char> = if trailing {
        seq!['/']
    } else {
        Seq::<char>::empty()
    };
    lemma_slash_join_as_join(ts);
    lemma_join_chars(ts, '/');
    let jn = join_char(ts, '/');
    assert forall|j: int| 0 <= j < base.len() implies base[j] != '?' by {
        assert(base =~= seq!['/'] + jn + trailpart);
        if j == 0 {
        } else if j <= jn.len() {
            assert(base[j] == jn[j - 1]);
            if jn[j - 1] != '/' {
                let (i, k): (int, int) = choose|i: int, k: int|
                    0 <= i < ts.len() && 0 <= k < ts[i].len() && jn[j - 1] == ts[i][k];
                assert(ts[i][k] != '?');
            }
        } else {
            assert(base[j] == '/');
        }
    }
    assert(base[0] == '/');
    if trailing {
        let tse = ts.push(Seq::<char>::empty());
        assert(join_char(tse, '/') =~= jn + seq!['/']) by {
            assert(tse.drop_last() =~= ts);
            assert(tse.last() =~= Seq::<char>::empty());
        }
        assert(base.drop_first() =~= join_char(tse, '/'));
        assert(forall|i: int, j: int|
            0 <= i < tse.len() && 0 <= j < tse[i].len() ==> tse[i][j] != '/') by {
            assert(forall|i: int| 0 <= i < ts.len() ==> tse[i] == ts[i]);
        }
        lemma_split_join(tse, '/');
        assert(split_char(base.drop_first(), '/') == tse);
        assert(tse.len() >= 2);
        assert(tse.last().len() == 0);
        assert(tse.drop_last() =~= ts);
        assert(crate::router::spec_segments(base).0 == ts);
        assert(crate::router::spec_segments(base).1 == trailing);
    } else {
        assert(base =~= slash_join(ts));
        assert(base.drop_first() =~= jn);
        lemma_split_join(ts, '/');
        assert(split_char(base.drop_first(), '/') == ts);
        assert(ts.last() == ts[ts.len() - 1]);
        assert(ts.last().len() > 0);
        assert(crate::router::spec_segments(base).0 == ts);
        assert(crate::router::spec_segments(base).1 == trailing);
    }
}

/// Generating a value of a router with one case and one pattern and
/// parsing the URL back, both with encoding asked for, returns the value:
/// generation succeeds, and parsing the generated URL yields a value
/// structurally equal to the original, valid for the pattern's own locale
/// set.
#[verifier::rlimit(100)]
pub proof fn lemma_generate_parse_round_trip(tables: Seq<Seq<RouteModel>>, v: ValueModel, loc: Seq<char>)
    requires
        tables.len() == 1,
        tables[0].len() == 1,
        tables[0][0].localized_routes.len() == 1,
        tables[0][0].localized_routes[0].path.sub_route is None,
        tables[0][0].localized_routes[0].path.components.len() > 0
            || tables[0][0].localized_routes[0].path.trailing_slash,
        forall|i: int|
            0 <= i < tables[0][0].localized_routes[0].path.components.len() ==> literal_ok(
                #[trigger] tables[0][0].localized_routes[0].path.components[i],
            ),
        qualifies(tables[0][0].localized_routes[0].locales, Some(loc)),
        v.case == 0,
        v.sub.len() == 0,
        canonical_args(tables[0][0].localized_routes[0].path.components, v.args),
        crate::query::canonical_query(tables[0][0].query_params, v.query),
    ensures
        spec_generate_url(tables, v, Some(loc), true) matches Some(url) && spec_parse_url(
            tables,
            url,
            true,
        ) == Some(
            (
                v,
                crate::locales::spec_resulting(None, tables[0][0].localized_routes[0].locales),
            ),
        ),
{
    let route = tables[0][0];
    let lr = route.localized_routes[0];
    let cs = lr.path.components;
    let args = v.args;
    let trailing = lr.path.trailing_slash;

    // The segment texts exist, are described exactly, and are plain.
    lemma_seg_texts_canonical(cs, args, cs.len() as int);
    assert(cs.take(cs.len() as int) =~= cs);
    let ts = seg_texts(cs, args, true)->Some_0;
    lemma_ts_plain(cs, args, ts);

    // Rendering and query emission succeed; generation follows.
    lemma_render_structure(cs, args, true);
    let head = spec_render_fixed(cs, args, true)->Some_0;
    assert(crate::router::spec_first_qualifying(route.localized_routes, Some(loc)) == Some(0int));
    crate::query::lemma_emit_resolve_round_trip(route.query_params, v.query);
    let qpairs = crate::query::spec_emit_params(route.query_params, v.query)->Some_0;
    let trailpart: Seq<char> = if trailing {
        seq!['/']
    } else {
        Seq::<char>::empty()
    };
    let base = head + trailpart;
    let qs = crate::query::spec_render_query(qpairs);
    let qspart: Seq<char> = if qpairs.len() > 0 {
        seq!['?'] + qs
    } else {
        Seq::<char>::empty()
    };
    let url = base + qspart;
    assert(spec_generate_url(tables, v, Some(loc), true) == Some(url));

    // The path part holds no `?` and splits back into the segment texts.
    if cs.len() == 0 {
        assert(trailing);
        assert(base =~= seq!['/']);
        assert forall|j: int| 0 <= j < base.len() implies base[j] != '?' by {
            assert(base[j] == '/');
        }
        assert(base.drop_first() =~= Seq::<char>::empty());
        assert(split_char(Seq::<char>::empty(), '/') =~= seq![Seq::<char>::empty()]);
        assert(crate::router::spec_segments(base).0 =~= ts);
        assert(crate::router::spec_segments(base).1 == trailing);
    } else {
        lemma_base_facts(ts, trailing, base);
    }
    assert(crate::router::spec_segments(base) == (ts, trailing));

    // Splitting the URL at `?` recovers the path part and the pairs.
    if qpairs.len() == 0 {
        assert(url =~= base);
        crate::text::lemma_find_char(url, '?');
        assert(find_char(url, '?') < 0) by {
            if find_char(url, '?') >= 0 {
                assert(url[find_char(url, '?')] == '?');
            }
        }
        assert(crate::query::spec_parse_query(Seq::<char>::empty()) == Some(
            Seq::<(Seq<char>, Seq<char>)>::empty(),
        ));
        assert(Seq::<(Seq<char>, Seq<char>)>::empty() =~= qpairs);
    } else {
        crate::text::lemma_find_char_concat(base, seq!['?'] + qs, '?');
        assert(find_char(seq!['?'] + qs, '?') == 0) by {
            assert((seq!['?'] + qs)[0] == '?');
        }
        assert(url =~= base + (seq!['?'] + qs));
        assert(find_char(url, '?') == base.len());
        assert(url.take(base.len() as int) =~= base);
        assert(url.skip(base.len() as int + 1) =~= qs);
        crate::query::lemma_query_string_round_trip(qpairs);
    }


    // The single entry is the sole candidate and wins.
    lemma_single_flat(tables[0]);
    assert(pattern_matches(lr.path, ts, trailing)) by {
        assert(forall|i: int|
            0 <= i < cs.len() ==> crate::router::seg_matches(#[trigger] cs[i], ts[i]));
    }
    lemma_single_candidate((0int, 0int, lr), ts, trailing, None, ts.len() as int);

    // Binding and query resolution give the value's fields back.
    lemma_bind_round_trip(cs, args, ts, cs.len() as int);
    assert(spec_bind_args(cs, ts, true) == Some(args.take(spec_params(cs).len() as int)));
    assert(args.take(spec_params(cs).len() as int) =~= args);
    assert(spec_bind_args(cs, ts, true) == Some(args));
    assert(crate::query::spec_resolve_params(qpairs, route.query_params) == Some(v.query));

    let expected = ValueModel {
        case: 0,
        args: args,
        sub: Seq::<ValueModel>::empty(),
        query: v.query,
    };
    let parsed = crate::router::spec_parse_at(tables, 0, base, None, true, qpairs);
    assert(parsed == Some((expected, crate::locales::spec_resulting(None, lr.locales))));
    assert(expected.sub =~= v.sub);
    assert(expected =~= v);
    assert(spec_parse_url(tables, url, true) == Some(
        (expected, crate::locales::spec_resulting(None, lr.locales)),
    ));
}

/// Gluing distributes over concatenation of segment text lists.
proof fn lemma_slash_join_concat(a: Seq<Seq<char>>, b: Seq<Seq<char>>)
    ensures
        slash_join(a + b) == slash_join(a) + slash_join(b),
    decreases b.len(),
{
    if b.len() == 0 {
        assert(a + b =~= a);
        assert(slash_join(a) + slash_join(b) =~= slash_join(a));
    } else {
        lemma_slash_join_concat(a, b.drop_last());
        assert((a + b).drop_last() =~= a + b.drop_last());
        assert((a + b).last() == b.last());
        assert(slash_join(a + b) =~= slash_join(a) + slash_join(b));
    }
}

/// A capture region rendered from plain segment texts splits back into
/// them; it carries no leading slash.
proof fn lemma_capture_facts(ts: Seq<Seq<char>>, trailing: bool, cap: Seq<char>)
    requires
        ts.len() >= 1,
        texts_plain(ts),
        cap == join_char(ts, '/') + (if trailing {
            seq!['/']
        } else {
            Seq::<char>::empty()
        }),
    ensures
        crate::router::spec_segments(cap) == (ts, trailing),
        cap.len() > 0,
{
    let trailpart: Seq<char> = if trailing {
        seq!['/']
    } else {
        Seq::<char>::empty()
    };
    let jn = join_char(ts, '/');
    assert(jn[0] == ts[0][0]) by {
        if ts.len() == 1 {
            assert(jn == ts[0]);
        } else {
            crate::text::lemma_join_char_front(ts, '/');
            assert(jn =~= ts[0] + (seq!['/'] + join_char(ts.drop_first(), '/')));
            assert(ts[0].len() > 0);
        }
    }
    assert(cap[0] == ts[0][0]);
    assert(cap[0] != '/');
    assert(cap.len() > 0);
    if trailing {
        let tse = ts.push(Seq::<char>::empty());
        assert(join_char(tse, '/') =~= jn + seq!['/']) by {
            assert(tse.drop_last() =~= ts);
            assert(tse.last() =~= Seq::<char>::empty());
        }
        assert(cap =~= join_char(tse, '/'));
        assert(forall|i: int, j: int|
            0 <= i < tse.len() && 0 <= j < tse[i].len() ==> tse[i][j] != '/') by {
            assert(forall|i: int| 0 <= i < ts.len() ==> tse[i] == ts[i]);
        }
        lemma_split_join(tse, '/');
        assert(split_char(cap, '/') == tse);
        assert(tse.len() >= 2);
        assert(tse.last().len() == 0);
        assert(tse.drop_last() =~= ts);
        assert(crate::router::spec_segments(cap).0 == ts);
        assert(crate::router::spec_segments(cap).1 == trailing);
    } else {
        assert(cap =~= jn);
        lemma_split_join(ts, '/');
        assert(split_char(cap, '/') == ts);
        assert(ts.last() == ts[ts.len() - 1]);
        assert(ts.last().len() > 0);
        assert(crate::router::spec_segments(cap).0 == ts);
        assert(crate::router::spec_segments(cap).1 == trailing);
    }
}

/// A locale set narrowed from an unconstrained accepted set still admits
/// every declaration the target locale qualifies for.
proof fn lemma_narrow_accepts(
    outer: Option<Seq<Seq<char>>>,
    inner: Option<Seq<Seq<char>>>,
    loc: Seq<char>,
)
    requires
        qualifies(outer, Some(loc)),
        qualifies(inner, Some(loc)),
    ensures
        crate::locales::spec_accept(crate::locales::spec_narrow(None, outer), inner),
{
    match (outer, inner) {
        (Option::Some(ov), Option::Some(iv)) => {
            assert(crate::locales::locale_in(ov, loc));
            assert(crate::locales::locale_in(iv, loc));
            let i = choose|i: int| 0 <= i < iv.len() && iv[i] == loc;
            assert(crate::locales::locale_in(ov, iv[i]));
            assert(crate::locales::locales_intersect(ov, iv));
        },
        _ => {},
    }
}

/// Generating a value that delegates to a sub-route and parsing the URL
/// back returns the value: the capture region hands the nested pattern's
/// own rendering down unchanged, and the nested resulting locales are
/// reported upward. Stated for a two-table router with one case and one
/// pattern at each level and no query parameters.
#[verifier::rlimit(100)]
pub proof fn lemma_sub_route_round_trip(tables: Seq<Seq<RouteModel>>, v: ValueModel, loc: Seq<char>)
    requires
        tables.len() == 2,
        tables[0].len() == 1,
        tables[1].len() == 1,
        tables[0][0].localized_routes.len() == 1,
        tables[1][0].localized_routes.len() == 1,
        tables[0][0].query_params.len() == 0,
        tables[1][0].query_params.len() == 0,
        tables[0][0].localized_routes[0].path.sub_route is Some,
        !tables[0][0].localized_routes[0].path.trailing_slash,
        tables[0][0].sub_target == Some(1int),
        tables[1][0].localized_routes[0].path.sub_route is None,
        tables[1][0].localized_routes[0].path.components.len() > 0,
        tables[1][0].sub_target is None,
        forall|i: int|
            0 <= i < tables[0][0].localized_routes[0].path.components.len() ==> literal_ok(
                #[trigger] tables[0][0].localized_routes[0].path.components[i],
            ),
        forall|i: int|
            0 <= i < tables[1][0].localized_routes[0].path.components.len() ==> literal_ok(
                #[trigger] tables[1][0].localized_routes[0].path.components[i],
            ),
        qualifies(tables[0][0].localized_routes[0].locales, Some(loc)),
        qualifies(tables[1][0].localized_routes[0].locales, Some(loc)),
        v.case == 0,
        v.query.len() == 0,
        canonical_args(tables[0][0].localized_routes[0].path.components, v.args),
        v.sub.len() == 1,
        v.sub[0].case == 0,
        v.sub[0].sub.len() == 0,
        v.sub[0].query.len() == 0,
        canonical_args(tables[1][0].localized_routes[0].path.components, v.sub[0].args),
    ensures
        spec_generate_url(tables, v, Some(loc), true) matches Some(url) && spec_parse_url(
            tables,
            url,
            true,
        ) == Some(
            (
                v,
                crate::locales::spec_resulting(
                    crate::locales::spec_narrow(None, tables[0][0].localized_routes[0].locales),
                    tables[1][0].localized_routes[0].locales,
                ),
            ),
        ),
{
    let route0 = tables[0][0];
    let lr0 = route0.localized_routes[0];
    let cs0 = lr0.path.components;
    let route1 = tables[1][0];
    let lr1 = route1.localized_routes[0];
    let cs1 = lr1.path.components;
    let vsub = v.sub[0];
    let trailing1 = lr1.path.trailing_slash;
    let empty_pairs = Seq::<(Seq<char>, Seq<char>)>::empty();

    // Segment texts of both levels.
    lemma_seg_texts_canonical(cs0, v.args, cs0.len() as int);
    assert(cs0.take(cs0.len() as int) =~= cs0);
    let ts0 = seg_texts(cs0, v.args, true)->Some_0;
    lemma_ts_plain(cs0, v.args, ts0);
    lemma_seg_texts_canonical(cs1, vsub.args, cs1.len() as int);
    assert(cs1.take(cs1.len() as int) =~= cs1);
    let ts1 = seg_texts(cs1, vsub.args, true)->Some_0;
    lemma_ts_plain(cs1, vsub.args, ts1);

    // Rendering at both levels; generation succeeds.
    lemma_render_structure(cs0, v.args, true);
    lemma_render_structure(cs1, vsub.args, true);
    let head0 = spec_render_fixed(cs0, v.args, true)->Some_0;
    let head1 = spec_render_fixed(cs1, vsub.args, true)->Some_0;
    assert(crate::router::spec_first_qualifying(route0.localized_routes, Some(loc)) == Some(0int));
    assert(crate::router::spec_first_qualifying(route1.localized_routes, Some(loc)) == Some(0int));
    assert(crate::query::spec_emit_params(route0.query_params, v.query) == Some(empty_pairs));
    assert(crate::query::spec_emit_params(route1.query_params, vsub.query) == Some(empty_pairs));
    let trail1: Seq<char> = if trailing1 {
        seq!['/']
    } else {
        Seq::<char>::empty()
    };
    let suburl = head1 + trail1;
    assert(crate::router::spec_generate_at(tables, 1, vsub, Some(loc), true) == Some(
        (suburl, empty_pairs),
    ));
    let url = head0 + suburl;
    assert(crate::router::spec_generate_at(tables, 0, v, Some(loc), true) matches Some(g)
        && g.0 == url && g.1 =~= empty_pairs) by {
        assert(empty_pairs + empty_pairs =~= empty_pairs);
    }
    assert(spec_generate_url(tables, v, Some(loc), true) == Some(url));

    // The URL is the glued form of both levels' segment texts.
    let ts = ts0 + ts1;
    assert(ts1.len() >= 1);
    assert(texts_plain(ts)) by {
        assert(forall|i: int| 0 <= i < ts0.len() ==> ts[i] == ts0[i]);
        assert(forall|i: int| ts0.len() <= i < ts.len() ==> ts[i] == ts1[i - ts0.len()]);
    }
    lemma_slash_join_concat(ts0, ts1);
    assert(url == slash_join(ts) + trail1);

    // It holds no `?` and splits back into the texts.
    lemma_base_facts(ts, trailing1, url);
    crate::text::lemma_find_char(url, '?');
    assert(find_char(url, '?') < 0) by {
        if find_char(url, '?') >= 0 {
            assert(url[find_char(url, '?')] == '?');
        }
    }
    assert(crate::query::spec_parse_query(Seq::<char>::empty()) == Some(empty_pairs));

    // The outer entry is the sole candidate and wins.
    lemma_single_flat(tables[0]);
    assert(pattern_matches(lr0.path, ts, trailing1)) by {
        assert(forall|i: int|
            0 <= i < cs0.len() ==> crate::router::seg_matches(#[trigger] cs0[i], ts[i])) by {
            assert(forall|i: int| 0 <= i < ts0.len() ==> ts[i] == ts0[i]);
        }
        assert(ts.len() > cs0.len());
        assert(crate::router::spec_capture(ts, cs0.len() as int, trailing1).len() > 0) by {
            assert(ts.skip(cs0.len() as int) =~= ts1);
            lemma_capture_facts(ts1, trailing1, crate::router::spec_capture(
                ts,
                cs0.len() as int,
                trailing1,
            ));
        }
    }
    lemma_single_candidate((0int, 0int, lr0), ts, trailing1, None, ts.len() as int);

    // Outer binding gives the outer arguments back.
    assert(forall|i: int| 0 <= i < ts0.len() ==> ts[i] == ts0[i]);
    assert(forall|i: int|
        0 <= i < cs0.len() ==> #[trigger] ts[i] == (match cs0[i] {
            ComponentModel::Literal(t) => t,
            ComponentModel::Param(_) => percent_encoded(
                v.args[spec_params(cs0.take(i)).len() as int].1,
            ),
        }));
    assert(ts.len() >= cs0.len());
    lemma_bind_round_trip(cs0, v.args, ts, cs0.len() as int);
    assert(spec_bind_args(cs0, ts, true) == Some(v.args.take(spec_params(cs0).len() as int)));
    assert(v.args.take(spec_params(cs0).len() as int) =~= v.args);
    assert(crate::query::spec_resolve_params(empty_pairs, route0.query_params) == Some(
        Seq::<(Seq<char>, Option<Seq<char>>)>::empty(),
    ));

    // The capture region re-segments into the inner texts, and the inner
    // entry is accepted under the narrowed set.
    let cap = crate::router::spec_capture(ts, cs0.len() as int, trailing1);
    assert(ts.skip(cs0.len() as int) =~= ts1);
    lemma_capture_facts(ts1, trailing1, cap);
    let narrowed = crate::locales::spec_narrow(None, lr0.locales);
    lemma_narrow_accepts(lr0.locales, lr1.locales, loc);
    lemma_single_flat(tables[1]);
    assert(pattern_matches(lr1.path, ts1, trailing1)) by {
        assert(forall|i: int|
            0 <= i < cs1.len() ==> crate::router::seg_matches(#[trigger] cs1[i], ts1[i]));
    }
    lemma_single_candidate((0int, 0int, lr1), ts1, trailing1, narrowed, ts1.len() as int);
    lemma_bind_round_trip(cs1, vsub.args, ts1, cs1.len() as int);
    assert(spec_bind_args(cs1, ts1, true) == Some(vsub.args.take(spec_params(cs1).len() as int)));
    assert(vsub.args.take(spec_params(cs1).len() as int) =~= vsub.args);
    assert(crate::query::spec_resolve_params(empty_pairs, route1.query_params) == Some(
        Seq::<(Seq<char>, Option<Seq<char>>)>::empty(),
    ));
    let expected_sub = ValueModel {
        case: 0,
        args: vsub.args,
        sub: Seq::<ValueModel>::empty(),
        query: Seq::<(Seq<char>, Option<Seq<char>>)>::empty(),
    };
    let sub_locs = crate::locales::spec_resulting(narrowed, lr1.locales);
    let sub_parsed = crate::router::spec_parse_at(tables, 1, cap, narrowed, true, empty_pairs);
    assert(sub_parsed == Some((expected_sub, sub_locs)));
    assert(expected_sub =~= vsub) by {
        assert(expected_sub.sub =~= vsub.sub);
        assert(expected_sub.query =~= vsub.query);
    }

    // The outer parse assembles the whole value.
    let expected = ValueModel {
        case: 0,
        args: v.args,
        sub: seq![expected_sub],
        query: Seq::<(Seq<char>, Option<Seq<char>>)>::empty(),
    };
    let parsed = crate::router::spec_parse_at(tables, 0, url, None, true, empty_pairs);
    assert(parsed == Some((expected, sub_locs)));
    assert(expected =~= v) by {
        assert(expected.sub =~= v.sub);
        assert(expected.query =~= v.query);
    }
    assert(spec_parse_url(tables, url, true) == Some((expected, sub_locs)));
}

/// Whether no declared query parameter is mandatory.
pub open spec fn no_mandatory(qps: Seq<crate::query::QueryParamModel>) -> bool {
    forall|i: int|
        0 <= i < qps.len() ==> !((#[trigger] qps[i]) matches
            crate::query::QueryParamModel::Mandatory(_))
}

/// Resolving declared parameters of which none is mandatory always
/// succeeds.
proof fn lemma_resolve_no_mandatory(
    pairs: Seq<(Seq<char>, Seq<char>)>,
    qps: Seq<crate::query::QueryParamModel>,
)
    requires
        no_mandatory(qps),
    ensures
        crate::query::spec_resolve_params(pairs, qps) is Some,
    decreases qps.len(),
{
    if qps.len() > 0 {
        assert(forall|i: int| 0 <= i < qps.drop_last().len() ==> qps.drop_last()[i] == qps[i]);
        lemma_resolve_no_mandatory(pairs, qps.drop_last());
    }
}

/// A root case whose only pattern is the empty component list with a
/// trailing slash parses `/`, as long as no query parameter is mandatory.
pub proof fn lemma_root_slash_parses(tables: Seq<Seq<RouteModel>>, decode: bool)
    requires
        tables.len() >= 1,
        tables[0].len() == 1,
        tables[0][0].localized_routes.len() == 1,
        tables[0][0].localized_routes[0].path.components.len() == 0,
        tables[0][0].localized_routes[0].path.trailing_slash,
        tables[0][0].localized_routes[0].path.sub_route is None,
        no_mandatory(tables[0][0].query_params),
    ensures
        spec_parse_url(tables, seq!['/'], decode) is Some,
{
    let route = tables[0][0];
    let lr = route.localized_routes[0];
    let url = seq!['/'];
    let empty_pairs = Seq::<(Seq<char>, Seq<char>)>::empty();
    reveal_with_fuel(find_char, 3);
    assert(url.drop_first() =~= Seq::<char>::empty());
    assert(find_char(url, '?') == -1);
    assert(crate::query::spec_parse_query(Seq::<char>::empty()) == Some(empty_pairs));
    assert(split_char(Seq::<char>::empty(), '/') =~= seq![Seq::<char>::empty()]);
    assert(crate::router::spec_segments(url).0 =~= Seq::<Seq<char>>::empty());
    assert(crate::router::spec_segments(url).1);
    lemma_single_flat(tables[0]);
    assert(pattern_matches(lr.path, Seq::empty(), true));
    lemma_single_candidate((0int, 0int, lr), Seq::empty(), true, None, 0);
    assert(spec_bind_args(lr.path.components, Seq::empty(), decode) == Some(
        Seq::<(Seq<char>, Seq<char>)>::empty(),
    )) by {
        assert(lr.path.components =~= Seq::<ComponentModel>::empty());
    }
    lemma_resolve_no_mandatory(empty_pairs, route.query_params);
    assert(crate::router::spec_parse_at(tables, 0, url, None, decode, empty_pairs) is Some);
}

/// Two paths with the same segments and trailing flag parse alike.
proof fn lemma_parse_at_segments(
    tables: Seq<Seq<RouteModel>>,
    t: int,
    path1: Seq<char>,
    path2: Seq<char>,
    accepted: Option<Seq<Seq<char>>>,
    decode: bool,
    pairs: Seq<(Seq<char>, Seq<char>)>,
)
    requires
        crate::router::spec_segments(path1) == crate::router::spec_segments(path2),
    ensures
        crate::router::spec_parse_at(tables, t, path1, accepted, decode, pairs)
            == crate::router::spec_parse_at(tables, t, path2, accepted, decode, pairs),
    decreases tables.len() - t,
{
}

} // verus!
