//! Locale-set negotiation: pure set algebra over the caller-side accepted
//! set and the declaration-side route set.
//!
//! The accepted set narrows monotonically as matching descends into
//! sub-routes; it never widens.

use vstd::prelude::*;

verus! {

/// Caller-side negotiation state: either any locale is acceptable, or only
/// the explicitly listed ones (in preference order).
#[derive(Debug, Clone, PartialEq, Eq)]
pub enum AcceptedLocales {
    Any,
    Explicit(Vec<String>),
}

/// Declaration-side locale set attached to a localized path: either the path
/// is valid for every locale, or only for the explicitly listed ones.
#[derive(Debug, Clone, PartialEq, Eq)]
pub enum RouteLocales {
    Any,
    Explicit(Vec<String>),
}

impl View for AcceptedLocales {
    type V = Option<Seq<Seq<char>>>;

    open spec fn view(&self) -> Option<Seq<Seq<char>>> {
        match self {
            AcceptedLocales::Any => None,
            AcceptedLocales::Explicit(v) => Some(v.deep_view()),
        }
    }
}

impl View for RouteLocales {
    type V = Option<Seq<Seq<char>>>;

    open spec fn view(&self) -> Option<Seq<Seq<char>>> {
        match self {
            RouteLocales::Any => None,
            RouteLocales::Explicit(v) => Some(v.deep_view()),
        }
    }
}

/// Membership of a locale code in a locale list.
pub open spec fn locale_in(s: Seq<Seq<char>>, x: Seq<char>) -> bool {
    exists|i: int| 0 <= i < s.len() && s[i] == x
}

/// Whether two explicit locale lists share at least one code.
pub open spec fn locales_intersect(a: Seq<Seq<char>>, r: Seq<Seq<char>>) -> bool {
    exists|i: int| 0 <= i < r.len() && locale_in(a, r[i])
}

/// The members of `base`, in order, that also occur in `allowed`.
pub open spec fn filter_members(base: Seq<Seq<char>>, allowed: Seq<Seq<char>>) -> Seq<Seq<char>>
    decreases base.len(),
{
    if base.len() == 0 {
        Seq::empty()
    } else {
        let rest = filter_members(base.drop_last(), allowed);
        if locale_in(allowed, base.last()) {
            rest.push(base.last())
        } else {
            rest
        }
    }
}

/// `accept`: true when either side is unconstrained, otherwise when the two
/// explicit sets intersect.
pub open spec fn spec_accept(a: Option<Seq<Seq<char>>>, r: Option<Seq<Seq<char>>>) -> bool {
    match (a, r) {
        (Option::None, _) => true,
        (_, Option::None) => true,
        (Option::Some(av), Option::Some(rv)) => locales_intersect(av, rv),
    }
}

/// `narrow`: the accepted set handed down to a sub-route. An unconstrained
/// side defers to the other; two explicit sets intersect, keeping the
/// accepted side's order.
pub open spec fn spec_narrow(
    a: Option<Seq<Seq<char>>>,
    r: Option<Seq<Seq<char>>>,
) -> Option<Seq<Seq<char>>> {
    match (a, r) {
        (Option::None, Option::None) => None,
        (Option::None, Option::Some(rv)) => Some(rv),
        (Option::Some(av), Option::None) => Some(av),
        (Option::Some(av), Option::Some(rv)) => Some(filter_members(av, rv)),
    }
}

/// `resultingLocales`: the locale codes under which a match is valid,
/// reported upward. Both sides unconstrained means "no locale constraint";
/// two explicit sets intersect, keeping the declared side's order.
pub open spec fn spec_resulting(
    a: Option<Seq<Seq<char>>>,
    r: Option<Seq<Seq<char>>>,
) -> Seq<Seq<char>> {
    match (a, r) {
        (Option::None, Option::None) => Seq::empty(),
        (Option::None, Option::Some(rv)) => rv,
        (Option::Some(av), Option::None) => av,
        (Option::Some(av), Option::Some(rv)) => filter_members(rv, av),
    }
}

/// Whether the two explicit locale lists share at least one code.
pub fn locale_lists_intersect(a: &Vec<String>, r: &Vec<String>) -> (res: bool)
    ensures
        res == locales_intersect(a.deep_view(), r.deep_view()),
{
    let mut i: usize = 0;
    while i < r.len()
        invariant
            0 <= i <= r.len(),
            forall|j: int| 0 <= j < i ==> !locale_in(a.deep_view(), r.deep_view()[j]),
        decreases r.len() - i,
    {
        assert(r.deep_view()[i as int] == r[i as int]@);
        if locale_list_contains(a, &r[i]) {
            assert(locale_in(a.deep_view(), r.deep_view()[i as int]));
            return true;
        }
        i += 1;
    }
    false
}

/// Every member of a filtered list comes from the base list.
proof fn lemma_filter_members_sub(base: Seq<Seq<char>>, allowed: Seq<Seq<char>>)
    ensures
        forall|j: int|
            0 <= j < filter_members(base, allowed).len() ==> locale_in(
                base,
                #[trigger] filter_members(base, allowed)[j],
            ) && locale_in(allowed, filter_members(base, allowed)[j]),
    decreases base.len(),
{
    if base.len() > 0 {
        lemma_filter_members_sub(base.drop_last(), allowed);
        let f = filter_members(base, allowed);
        let pre = filter_members(base.drop_last(), allowed);
        assert forall|j: int| 0 <= j < f.len() implies locale_in(base, #[trigger] f[j])
            && locale_in(allowed, f[j]) by {
            if j < pre.len() {
                assert(f[j] == pre[j]);
                let i = choose|i: int| 0 <= i < base.drop_last().len() && base.drop_last()[i]
                    == pre[j];
                assert(base[i] == pre[j]);
            } else {
                assert(f[j] == base.last());
                assert(base[base.len() - 1] == base.last());
            }
        }
    }
}

/// Narrowing is monotone: the accepted set handed down to a sub-route
/// never widens — every locale it admits was admitted before.
pub proof fn lemma_narrow_monotone(a: Option<Seq<Seq<char>>>, r: Option<Seq<Seq<char>>>)
    requires
        a matches Some(_),
    ensures
        spec_narrow(a, r) matches Some(nv) && forall|j: int|
            0 <= j < nv.len() ==> locale_in(a->Some_0, #[trigger] nv[j]),
{
    let av = a->Some_0;
    match r {
        Option::None => {
            assert(spec_narrow(a, r) == Some(av));
            assert(forall|j: int| 0 <= j < av.len() ==> locale_in(av, #[trigger] av[j]));
        },
        Option::Some(rv) => {
            lemma_filter_members_sub(av, rv);
        },
    }
}

/// Whether the locale list `v` holds the code `x`.
pub fn locale_list_has(v: &Vec<String>, x: &str) -> (r: bool)
    ensures
        r == locale_in(v.deep_view(), x@),
{
    locale_list_contains(v, &x.to_owned())
}

/// Whether the locale list `v` holds the code `x`.
fn locale_list_contains(v: &Vec<String>, x: &String) -> (r: bool)
    ensures
        r == locale_in(v.deep_view(), x@),
{
    let mut i: usize = 0;
    while i < v.len()
        invariant
            0 <= i <= v.len(),
            forall|j: int| 0 <= j < i ==> v.deep_view()[j] != x@,
        decreases v.len() - i,
    {
        assert(v.deep_view()[i as int] == v[i as int]@);
        if v[i].eq(x) {
            return true;
        }
        i += 1;
    }
    false
}

/// The members of `base`, in order, that also occur in `allowed`.
fn filter_locale_list(base: &Vec<String>, allowed: &Vec<String>) -> (r: Vec<String>)
    ensures
        r.deep_view() == filter_members(base.deep_view(), allowed.deep_view()),
{
    let mut out: Vec<String> = Vec::new();
    let mut i: usize = 0;
    while i < base.len()
        invariant
            0 <= i <= base.len(),
            out.deep_view() == filter_members(
                base.deep_view().take(i as int),
                allowed.deep_view(),
            ),
        decreases base.len() - i,
    {
        assert(base.deep_view()[i as int] == base[i as int]@);
        let keep = locale_list_contains(allowed, &base[i]);
        proof {
            let b = base.deep_view();
            assert(b.take(i + 1 as int).drop_last() =~= b.take(i as int));
            assert(b.take(i + 1 as int).last() == b[i as int]);
        }
        if keep {
            out.push(base[i].clone());
        }
        i += 1;
    }
    proof {
        assert(base.deep_view().take(base.len() as int) =~= base.deep_view());
    }
    out
}

impl RouteLocales {
    /// A copy with the same locale set.
    pub fn duplicate(&self) -> (r: RouteLocales)
        ensures
            r@ == self@,
    {
        match self {
            RouteLocales::Any => RouteLocales::Any,
            RouteLocales::Explicit(v) => RouteLocales::Explicit(v.clone()),
        }
    }
}

impl AcceptedLocales {
    /// Whether a route declared for `route_locales` may match at all under
    /// this accepted set.
    pub fn accept(&self, route_locales: &RouteLocales) -> (r: bool)
        ensures
            r == spec_accept(self@, route_locales@),
    {
        match self {
            AcceptedLocales::Any => true,
            AcceptedLocales::Explicit(accepted) => match route_locales {
                RouteLocales::Any => true,
                RouteLocales::Explicit(route) => locale_lists_intersect(accepted, route),
            },
        }
    }

    /// The accepted set to pass down when this case delegates to a
    /// sub-route declared for `route_locales`.
    pub fn accepted_locales_for_sub_route(&self, route_locales: &RouteLocales) -> (r:
        AcceptedLocales)
        ensures
            r@ == spec_narrow(self@, route_locales@),
    {
        match self {
            AcceptedLocales::Any => match route_locales {
                RouteLocales::Any => AcceptedLocales::Any,
                RouteLocales::Explicit(route) => AcceptedLocales::Explicit(route.clone()),
            },
            AcceptedLocales::Explicit(accepted) => match route_locales {
                RouteLocales::Any => AcceptedLocales::Explicit(accepted.clone()),
                RouteLocales::Explicit(route) => AcceptedLocales::Explicit(
                    filter_locale_list(accepted, route),
                ),
            },
        }
    }

    /// The locale codes under which a match against `route_locales` is
    /// valid; an empty list means no locale constraint applies.
    pub fn resulting_locales(&self, route_locales: &RouteLocales) -> (r: Vec<String>)
        ensures
            r.deep_view() == spec_resulting(self@, route_locales@),
    {
        match route_locales {
            RouteLocales::Any => match self {
                AcceptedLocales::Any => Vec::new(),
                AcceptedLocales::Explicit(accepted) => accepted.clone(),
            },
            RouteLocales::Explicit(route) => match self {
                AcceptedLocales::Any => route.clone(),
                AcceptedLocales::Explicit(accepted) => filter_locale_list(route, accepted),
            },
        }
    }
}

} // verus!
