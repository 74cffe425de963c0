//! Small verified string utilities: splitting on a separator, joining,
//! and decimal rendering for generated parameter names.

use vstd::prelude::*;

verus! {

/// Index of the first occurrence of `c` in `s`, or -1.
pub open spec fn find_char(s: Seq<char>, c: char) -> int
    decreases s.len(),
{
    if s.len() == 0 {
        -1
    } else if s[0] == c {
        0
    } else {
        let r = find_char(s.drop_first(), c);
        if r < 0 {
            -1
        } else {
            r + 1
        }
    }
}

/// `find_char` returns the least index holding `c`, or -1 when there is none.
pub proof fn lemma_find_char(s: Seq<char>, c: char)
    ensures
        find_char(s, c) < 0 ==> forall|j: int| 0 <= j < s.len() ==> s[j] != c,
        find_char(s, c) >= 0 ==> 0 <= find_char(s, c) < s.len() && s[find_char(s, c)] == c
            && forall|j: int| 0 <= j < find_char(s, c) ==> s[j] != c,
    decreases s.len(),
{
    if s.len() > 0 && s[0] != c {
        lemma_find_char(s.drop_first(), c);
        assert(forall|j: int| 0 < j < s.len() ==> s[j] == s.drop_first()[j - 1]);
    }
}

/// The pieces of `s` between occurrences of `c`; always at least one piece,
/// and no piece holds `c`.
pub open spec fn split_char(s: Seq<char>, c: char) -> Seq<Seq<char>>
    decreases s.len(),
{
    let idx = find_char(s, c);
    if idx < 0 || idx >= s.len() {
        seq![s]
    } else {
        seq![s.take(idx)] + split_char(s.skip(idx + 1), c)
    }
}

/// `split_char` yields at least one piece.
pub proof fn lemma_split_char_len(s: Seq<char>, c: char)
    ensures
        split_char(s, c).len() >= 1,
    decreases s.len(),
{
    let idx = find_char(s, c);
    if 0 <= idx < s.len() {
        lemma_split_char_len(s.skip(idx + 1), c);
    }
}

/// The pieces joined back with `c` between them.
pub open spec fn join_char(pieces: Seq<Seq<char>>, c: char) -> Seq<char>
    decreases pieces.len(),
{
    if pieces.len() == 0 {
        Seq::empty()
    } else if pieces.len() == 1 {
        pieces[0]
    } else {
        join_char(pieces.drop_last(), c) + seq![c] + pieces.last()
    }
}

/// Finding in a concatenation whose head is free of `c` means finding in
/// the tail, shifted.
pub proof fn lemma_find_char_concat(a: Seq<char>, b: Seq<char>, c: char)
    requires
        forall|i: int| 0 <= i < a.len() ==> a[i] != c,
    ensures
        find_char(a + b, c) == (if find_char(b, c) < 0 {
            -1int
        } else {
            a.len() + find_char(b, c)
        }),
    decreases a.len(),
{
    if a.len() == 0 {
        assert(a + b =~= b);
    } else {
        assert((a + b)[0] == a[0]);
        assert((a + b).drop_first() =~= a.drop_first() + b);
        lemma_find_char_concat(a.drop_first(), b, c);
    }
}

/// Front unfolding of `join_char`.
pub proof fn lemma_join_char_front(ps: Seq<Seq<char>>, c: char)
    requires
        ps.len() >= 2,
    ensures
        join_char(ps, c) == ps[0] + seq![c] + join_char(ps.drop_first(), c),
    decreases ps.len(),
{
    if ps.len() == 2 {
        assert(ps.drop_last() =~= seq![ps[0]]);
        assert(ps.drop_first() =~= seq![ps[1]]);
        assert(join_char(seq![ps[0]], c) == ps[0]);
        assert(join_char(seq![ps[1]], c) == ps[1]);
        assert(ps.last() == ps[1]);
        assert(join_char(ps, c) =~= ps[0] + seq![c] + join_char(ps.drop_first(), c));
    } else {
        lemma_join_char_front(ps.drop_last(), c);
        assert(ps.drop_last()[0] == ps[0]);
        assert(ps.drop_last().drop_first() =~= ps.drop_first().drop_last());
        assert(ps.drop_first().last() == ps.last());
        assert(ps.drop_first().len() >= 2);
        assert(join_char(ps, c) =~= ps[0] + seq![c] + join_char(ps.drop_first(), c));
    }
}

/// Splitting the join of pieces that are free of the separator gives the
/// pieces back.
pub proof fn lemma_split_join(ps: Seq<Seq<char>>, c: char)
    requires
        ps.len() >= 1,
        forall|i: int, j: int| 0 <= i < ps.len() && 0 <= j < ps[i].len() ==> ps[i][j] != c,
    ensures
        split_char(join_char(ps, c), c) == ps,
    decreases ps.len(),
{
    if ps.len() == 1 {
        let s = join_char(ps, c);
        assert(s == ps[0]);
        lemma_find_char(s, c);
        assert(find_char(s, c) < 0) by {
            if find_char(s, c) >= 0 {
                assert(s[find_char(s, c)] == c);
                assert(ps[0][find_char(s, c)] != c);
            }
        }
        assert(split_char(s, c) =~= ps);
    } else {
        lemma_join_char_front(ps, c);
        let s = join_char(ps, c);
        let rest = join_char(ps.drop_first(), c);
        assert(forall|i: int| 0 <= i < ps[0].len() ==> ps[0][i] != c);
        lemma_find_char_concat(ps[0], seq![c] + rest, c);
        assert(find_char(seq![c] + rest, c) == 0) by {
            assert((seq![c] + rest)[0] == c);
        }
        assert(s =~= ps[0] + (seq![c] + rest));
        assert(find_char(s, c) == ps[0].len());
        assert(s.take(ps[0].len() as int) =~= ps[0]);
        assert(s.skip(ps[0].len() as int + 1) =~= rest);
        assert(forall|i: int, j: int|
            0 <= i < ps.drop_first().len() && 0 <= j < ps.drop_first()[i].len()
                ==> ps.drop_first()[i][j] != c) by {
            assert(forall|i: int| 0 <= i < ps.drop_first().len() ==> ps.drop_first()[i] == ps[i
                + 1]);
        }
        lemma_split_join(ps.drop_first(), c);
        assert(0 <= find_char(s, c) < s.len());
        assert(split_char(s, c) =~= seq![ps[0]] + split_char(rest, c));
        assert(split_char(s, c) =~= ps);
    }
}

/// Index of the first occurrence of `sep` in `s`, if any.
pub fn find_in_str(s: &str, sep: char) -> (r: Option<usize>)
    ensures
        r matches Some(i) ==> find_char(s@, sep) == i as int,
        r is None ==> find_char(s@, sep) < 0,
{
    let n = s.unicode_len();
    let mut i: usize = 0;
    while i < n
        invariant
            0 <= i <= n,
            n == s@.len(),
            forall|j: int| 0 <= j < i ==> s@[j] != sep,
        decreases n - i,
    {
        if s.get_char(i) == sep {
            proof {
                lemma_find_char(s@, sep);
            }
            return Some(i);
        }
        i += 1;
    }
    proof {
        lemma_find_char(s@, sep);
    }
    None
}

/// Split `s` on `sep` into its pieces.
pub fn split_str(s: &str, sep: char) -> (r: Vec<String>)
    ensures
        r.deep_view() == split_char(s@, sep),
    decreases s@.len(),
{
    proof {
        lemma_find_char(s@, sep);
    }
    match find_in_str(s, sep) {
        None => {
            let mut out: Vec<String> = Vec::new();
            out.push(s.to_owned());
            assert(out.deep_view() =~= split_char(s@, sep));
            out
        },
        Some(i) => {
            let n = s.unicode_len();
            let head = s.substring_char(0, i);
            let tail = s.substring_char(i + 1, n);
            proof {
                assert(head@ =~= s@.take(i as int));
                assert(tail@ =~= s@.skip(i + 1 as int));
            }
            let mut rest = split_str(tail, sep);
            let ghost rest0 = rest.deep_view();
            let ghost old_view = rest@;
            rest.insert(0, head.to_owned());
            proof {
                assert(rest@.len() == old_view.len() + 1);
                assert(rest@[0]@ == s@.take(i as int));
                assert(forall|j: int| 1 <= j < rest@.len() ==> rest@[j] == old_view[j - 1]);
                assert(forall|j: int| 0 <= j < old_view.len() ==> old_view[j]@ == rest0[j]);
                assert(rest.deep_view() =~= seq![s@.take(i as int)] + rest0);
                assert(rest.deep_view() =~= split_char(s@, sep));
            }
            rest
        },
    }
}

/// Join the pieces with `sep` between them.
pub fn join_strings(pieces: &Vec<String>, sep: &str) -> (r: String)
    requires
        sep@.len() == 1,
    ensures
        r@ == join_char(pieces.deep_view(), sep@[0]),
{
    let mut out = String::new();
    let mut i: usize = 0;
    while i < pieces.len()
        invariant
            0 <= i <= pieces.len(),
            sep@.len() == 1,
            out@ == join_char(pieces.deep_view().take(i as int), sep@[0]),
        decreases pieces.len() - i,
    {
        if i > 0 {
            out.append(sep);
        }
        out.append(pieces[i].as_str());
        proof {
            let pv = pieces.deep_view();
            assert(pv.take(i + 1 as int).drop_last() =~= pv.take(i as int));
            assert(pv.take(i + 1 as int).last() == pv[i as int]);
            assert(pv[i as int] == pieces[i as int]@);
            if i > 0 {
                assert(out@ =~= join_char(pv.take(i + 1 as int), sep@[0]));
            } else {
                assert(pv.take(1).len() == 1);
                assert(out@ =~= join_char(pv.take(i + 1 as int), sep@[0]));
            }
        }
        i += 1;
    }
    proof {
        assert(pieces.deep_view().take(pieces.len() as int) =~= pieces.deep_view());
    }
    out
}

/// The decimal digit character for a value below 10.
pub open spec fn dec_digit(d: int) -> char {
    ((48 + d) as u8) as char
}

/// The decimal form of a natural number.
pub open spec fn dec_str(n: int) -> Seq<char>
    decreases n,
{
    if n < 10 {
        seq![dec_digit(if n >= 0 {
            n % 10
        } else {
            0
        })]
    } else {
        dec_str(n / 10) + seq![dec_digit(n % 10)]
    }
}

/// The one-character string for a decimal digit.
fn digit_str(d: usize) -> (r: &'static str)
    requires
        d < 10,
    ensures
        r@ =~= seq![dec_digit(d as int)],
{
    let r: &'static str = match d {
        0 => "0",
        1 => "1",
        2 => "2",
        3 => "3",
        4 => "4",
        5 => "5",
        6 => "6",
        7 => "7",
        8 => "8",
        _ => "9",
    };
    proof {
        reveal_strlit("0");
        reveal_strlit("1");
        reveal_strlit("2");
        reveal_strlit("3");
        reveal_strlit("4");
        reveal_strlit("5");
        reveal_strlit("6");
        reveal_strlit("7");
        reveal_strlit("8");
        reveal_strlit("9");
    }
    r
}

/// The decimal form of `n`.
pub fn usize_to_dec(n: usize) -> (r: String)
    ensures
        r@ == dec_str(n as int),
    decreases n,
{
    if n < 10 {
        digit_str(n).to_owned()
    } else {
        let mut head = usize_to_dec(n / 10);
        head.append(digit_str(n % 10));
        head
    }
}

/// The name bound to the unnamed parameter at position `i` of a pattern:
/// `p0`, `p1`, and so on.
pub open spec fn spec_unnamed_param_name(i: int) -> Seq<char> {
    seq!['p'] + dec_str(i)
}

/// The name bound to the unnamed parameter at position `i` of a pattern.
pub fn unnamed_param_name(i: usize) -> (r: String)
    ensures
        r@ == spec_unnamed_param_name(i as int),
{
    let mut out = String::new();
    out.append("p");
    let d = usize_to_dec(i);
    out.append(d.as_str());
    proof {
        reveal_strlit("p");
        assert(out@ =~= spec_unnamed_param_name(i as int));
    }
    out
}

} // verus!
