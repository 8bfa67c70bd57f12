//! The general guarantees of the simulation, stated and proved once for
//! all boards.
//!
//! Scenario-sized facts (a block is still, a blinker oscillates) live in
//! the test suite; everything here quantifies over all inputs.

use vstd::prelude::*;

use crate::board::{
    lemma_count_live_all, lemma_count_live_is_filter_len, lemma_neighbors_characterization, member_of,
    live_count, neighbors_of, next_gen, toggle_spec,
};
use crate::parse::{
    all_digits, canon_line, digits_val, find_byte, int_token_val, lemma_find_byte, line_cell,
    spec_parse, valid_int_token, valid_line,
};
use vstd::arithmetic::div_mod::{lemma_div_decreases, lemma_fundamental_div_mod, lemma_mod_bound};

verus! {

/// The eight neighbor offsets are exactly the coordinates at Chebyshev
/// distance one: every coordinate other than `c` itself whose components
/// each differ from `c` by at most one, and no other.
pub proof fn law_surrounds_exact(c: (int, int), q: (int, int))
    ensures
        neighbors_of(c).contains(q) <==> (q != c && -1 <= q.0 - c.0 <= 1 && -1 <= q.1 - c.1
            <= 1),
{
    lemma_neighbors_characterization(c, q);
}

/// The neighbor list has eight entries, all distinct, and never includes
/// the cell itself.
pub proof fn law_surrounds_distinct(c: (int, int))
    ensures
        neighbors_of(c).len() == 8,
        forall|i: int, j: int|
            0 <= i < j < 8 ==> neighbors_of(c)[i] != neighbors_of(c)[j],
        !neighbors_of(c).contains(c),
{
    lemma_neighbors_characterization(c, c);
}

/// The neighbor count of any cell is exactly the number of its eight
/// neighbor offsets that are members of the live set.
pub proof fn law_count_consistency(s: Set<(int, int)>, c: (int, int))
    ensures
        live_count(s, c) == neighbors_of(c).filter(member_of(s)).len(),
{
    lemma_count_live_is_filter_len(s, neighbors_of(c));
}

/// Toggling the same coordinate twice restores the original live set.
pub proof fn law_toggle_twice(s: Set<(int, int)>, p: (int, int))
    ensures
        toggle_spec(toggle_spec(s, p), p) == s,
{
    if s.contains(p) {
        assert(toggle_spec(toggle_spec(s, p), p) =~= s);
    } else {
        assert(toggle_spec(toggle_spec(s, p), p) =~= s);
    }
}

/// A live cell all eight of whose neighbors are live dies of
/// overpopulation in the next generation, whatever else the board holds.
pub proof fn law_overpopulation_dies(s: Set<(int, int)>, c: (int, int))
    requires
        s.contains(c),
        forall|q: (int, int)| neighbors_of(c).contains(q) ==> s.contains(q),
    ensures
        !next_gen(s).contains(c),
{
    assert forall|i: int| 0 <= i < neighbors_of(c).len() implies s.contains(
        neighbors_of(c)[i],
    ) by {
        assert(neighbors_of(c).contains(neighbors_of(c)[i]));
    }
    lemma_count_live_all(s, neighbors_of(c));
    assert(live_count(s, c) == 8);
}

/// The decimal digits of `n`, most significant first.
pub open spec fn dec_digits(n: nat) -> Seq<u8>
    decreases n,
{
    if n < 10 {
        seq![(48 + n) as u8]
    } else {
        dec_digits(n / 10).push((48 + n % 10) as u8)
    }
}

/// The text of one integer: a minus sign for negative values, then digits.
pub open spec fn render_int(v: int) -> Seq<u8> {
    if v < 0 {
        seq![45u8] + dec_digits((-v) as nat)
    } else {
        dec_digits(v as nat)
    }
}

/// The text of one record: the two coordinates split by a single space.
pub open spec fn render_pair(p: (int, int)) -> Seq<u8> {
    render_int(p.0) + seq![32u8] + render_int(p.1)
}

/// The text of a whole cell list, one newline-terminated record per pair.
pub open spec fn render_pairs(ps: Seq<(int, int)>) -> Seq<u8>
    decreases ps.len(),
{
    if ps.len() == 0 {
        Seq::empty()
    } else {
        render_pair(ps[0]) + seq![10u8] + render_pairs(ps.skip(1))
    }
}

/// The coordinates listed in a sequence, as a set.
pub open spec fn pairs_set(ps: Seq<(int, int)>) -> Set<(int, int)> {
    Set::new(|p: (int, int)| ps.contains(p))
}

/// Both components of the pair fit a 64-bit signed integer.
pub open spec fn i64_range(p: (int, int)) -> bool {
    &&& i64::MIN <= p.0 <= i64::MAX
    &&& i64::MIN <= p.1 <= i64::MAX
}

/// Digit strings denote their number: every byte is a digit, there is at
/// least one, and the denoted value is `n`.
proof fn lemma_dec_digits(n: nat)
    ensures
        all_digits(dec_digits(n)),
        dec_digits(n).len() >= 1,
        digits_val(dec_digits(n)) == n,
    decreases n,
{
    if n < 10 {
        let s = dec_digits(n);
        assert(s.drop_last() =~= Seq::<u8>::empty());
        assert(digits_val(Seq::<u8>::empty()) == 0);
        assert((48 + n) as u8 == 48 + n);
        assert(s.last() == (48 + n) as u8);
        assert(digits_val(s) == digits_val(s.drop_last()) * 10 + (s.last() - 48));
        assert(digits_val(s) == n);
    } else {
        lemma_fundamental_div_mod(n as int, 10);
        lemma_mod_bound(n as int, 10);
        lemma_div_decreases(n as int, 10);
        lemma_dec_digits(n / 10);
        let s = dec_digits(n);
        let head = dec_digits(n / 10);
        assert(s.drop_last() =~= head);
        assert(s.last() == (48 + n % 10) as u8);
        assert(digits_val(s) == digits_val(head) * 10 + (n % 10));
        assert(digits_val(s) == n);
        assert forall|i: int| 0 <= i < s.len() implies 48 <= #[trigger] s[i] <= 57 by {
            if i < head.len() {
                assert(s[i] == head[i]);
            }
        }
    }
}

/// An integer in 64-bit range renders as a valid token denoting itself,
/// free of separator bytes.
proof fn lemma_render_int(v: int)
    requires
        i64::MIN <= v <= i64::MAX,
    ensures
        valid_int_token(render_int(v)),
        int_token_val(render_int(v)) == v,
        render_int(v).len() >= 1,
        forall|i: int|
            0 <= i < render_int(v).len() ==> render_int(v)[i] != 10 && render_int(v)[i] != 13
                && render_int(v)[i] != 32,
        48 <= render_int(v).last() <= 57,
{
    let s = render_int(v);
    if v < 0 {
        lemma_dec_digits((-v) as nat);
        let d = dec_digits((-v) as nat);
        assert(s[0] == 45);
        assert(s.skip(1) =~= d);
        assert(digits_val(d) == -v);
        assert(-v <= i64::MAX + 1);
        assert(valid_int_token(s));
        assert(int_token_val(s) == v);
        assert(s.last() == d.last());
        assert(48 <= d.last() <= 57);
        assert forall|i: int| 0 <= i < s.len() implies #[trigger] s[i] != 10 && s[i] != 13
            && s[i] != 32 by {
            if i > 0 {
                assert(s[i] == d[i - 1]);
                assert(48 <= d[i - 1] <= 57);
            }
        }
    } else {
        lemma_dec_digits(v as nat);
        assert(s =~= dec_digits(v as nat));
        assert(48 <= s[0] <= 57);
        assert(valid_int_token(s));
        assert(int_token_val(s) == v);
        assert(48 <= s.last() <= 57);
        assert forall|i: int| 0 <= i < s.len() implies #[trigger] s[i] != 10 && s[i] != 13
            && s[i] != 32 by {
            assert(48 <= s[i] <= 57);
        }
    }
}

/// A rendered pair is a well-formed record denoting that pair, free of
/// newlines.
proof fn lemma_render_pair(p: (int, int))
    requires
        i64_range(p),
    ensures
        valid_line(render_pair(p)),
        line_cell(render_pair(p)) == p,
        forall|i: int| 0 <= i < render_pair(p).len() ==> render_pair(p)[i] != 10,
{
    lemma_render_int(p.0);
    lemma_render_int(p.1);
    let a = render_int(p.0);
    let b = render_int(p.1);
    let line = render_pair(p);
    let sp = a.len() as int;
    assert(line.len() == a.len() + 1 + b.len());
    assert(line[sp] == 32);
    assert forall|i: int| 0 <= i < line.len() implies line[i] != 10 by {
        if i < sp {
            assert(line[i] == a[i]);
        } else if i > sp {
            assert(line[i] == b[i - sp - 1]);
        }
    }
    assert(line.last() == b.last());
    assert(canon_line(line) =~= line);
    let t = canon_line(line);
    lemma_find_byte(t, 32);
    let f = find_byte(t, 32);
    assert(f != -1) by {
        if f == -1 {
            assert(t[sp] != 32);
        }
    }
    assert(f == sp) by {
        if f < sp {
            assert(t[f] == a[f]);
            assert(a[f] != 32);
        }
        if f > sp {
            assert(t[sp] != 32);
        }
    }
    assert(t.take(sp) =~= a);
    assert(t.skip(sp + 1) =~= b);
    assert(valid_line(line));
    assert(line_cell(line) == p);
}

/// A list of pairwise distinct pairs denotes a set of exactly its length,
/// so a round-tripped list of `n` distinct coordinates comes back as `n`
/// cells.
pub proof fn lemma_pairs_set_card(ps: Seq<(int, int)>)
    requires
        forall|i: int, j: int| 0 <= i < j < ps.len() ==> ps[i] != ps[j],
    ensures
        pairs_set(ps).finite(),
        pairs_set(ps).len() == ps.len(),
    decreases ps.len(),
{
    if ps.len() == 0 {
        assert(pairs_set(ps) =~= Set::<(int, int)>::empty());
    } else {
        let t = ps.drop_last();
        lemma_pairs_set_card(t);
        assert forall|p: (int, int)| pairs_set(ps).contains(p) implies pairs_set(t).insert(
            ps.last(),
        ).contains(p) by {
            let i = choose|i: int| 0 <= i < ps.len() && ps[i] == p;
            if i < t.len() {
                assert(t[i] == p);
                assert(t.contains(p));
            }
        }
        assert forall|p: (int, int)| pairs_set(t).insert(ps.last()).contains(p) implies pairs_set(
            ps,
        ).contains(p) by {
            if p == ps.last() {
                assert(ps[ps.len() - 1] == p);
            } else {
                let i = choose|i: int| 0 <= i < t.len() && t[i] == p;
                assert(ps[i] == p);
            }
            assert(ps.contains(p));
        }
        assert(pairs_set(ps) =~= pairs_set(t).insert(ps.last()));
        assert(!pairs_set(t).contains(ps.last())) by {
            if pairs_set(t).contains(ps.last()) {
                let i = choose|i: int| 0 <= i < t.len() && t[i] == ps.last();
                assert(ps[i] == ps[ps.len() - 1]);
            }
        }
    }
}

/// Importing what a cell list renders to succeeds and yields exactly that
/// set of coordinates: the textual round trip loses nothing and invents
/// nothing, in any order the cells were listed.
pub proof fn law_import_export_round_trip(ps: Seq<(int, int)>)
    requires
        forall|i: int| 0 <= i < ps.len() ==> i64_range(#[trigger] ps[i]),
    ensures
        spec_parse(render_pairs(ps)) == Some(pairs_set(ps)),
    decreases ps.len(),
{
    if ps.len() == 0 {
        assert(render_pairs(ps) =~= Seq::<u8>::empty());
        assert(pairs_set(ps) =~= Set::<(int, int)>::empty());
    } else {
        lemma_render_pair(ps[0]);
        let line = render_pair(ps[0]);
        let rest = render_pairs(ps.skip(1));
        let s = render_pairs(ps);
        let nl = line.len() as int;
        assert(s.len() == line.len() + 1 + rest.len());
        assert(s[nl] == 10);
        assert forall|i: int| 0 <= i < nl implies s[i] != 10 by {
            assert(s[i] == line[i]);
        }
        lemma_find_byte(s, 10);
        let f = find_byte(s, 10);
        assert(f != -1) by {
            if f == -1 {
                assert(s[nl] != 10);
            }
        }
        assert(f == nl) by {
            if f < nl {
                assert(s[f] != 10);
            }
            if f > nl {
                assert(s[nl] != 10);
            }
        }
        assert(s.take(nl) =~= line);
        assert(s.skip(nl + 1) =~= rest);
        assert forall|i: int| 0 <= i < ps.skip(1).len() implies i64_range(
            #[trigger] ps.skip(1)[i],
        ) by {
            assert(ps.skip(1)[i] == ps[i + 1]);
        }
        law_import_export_round_trip(ps.skip(1));
        assert(spec_parse(s) == Some(pairs_set(ps.skip(1)).insert(ps[0])));
        assert forall|q: (int, int)| pairs_set(ps.skip(1)).insert(ps[0]).contains(
            q,
        ) implies pairs_set(ps).contains(q) by {
            if q == ps[0] {
                assert(ps.contains(q));
            } else {
                let i = choose|i: int| 0 <= i < ps.skip(1).len() && ps.skip(1)[i] == q;
                assert(ps[i + 1] == q);
            }
        }
        assert forall|q: (int, int)| pairs_set(ps).contains(q) implies pairs_set(
            ps.skip(1),
        ).insert(ps[0]).contains(q) by {
            let i = choose|i: int| 0 <= i < ps.len() && ps[i] == q;
            if i > 0 {
                assert(ps.skip(1)[i - 1] == q);
                assert(ps.skip(1).contains(q));
            }
        }
        assert(pairs_set(ps.skip(1)).insert(ps[0]) =~= pairs_set(ps));
    }
}

} // verus!
