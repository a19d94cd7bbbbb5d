//! An item text read back: parsing what `serialize` wrote gives the item
//! again, for items whose title, body and properties the format can carry.
use vstd::prelude::*;

use crate::escaping::{lemma_prop_line_round_trip, prop_readable};
use crate::item::{
    has_colon, is_blank, is_item_id, last_blank, parse_spec, prop_line, prop_of_line, serialize_spec, ItemView,
};
use crate::num::parse_i64_spec;
use crate::props::{insert_all, key_index, lookup};
use crate::text::{index_of, join, split_on};

verus! {

/// Whether `s` holds no `c`.
pub open spec fn free_of(s: Seq<char>, c: char) -> bool {
    forall|i: int| 0 <= i < s.len() ==> #[trigger] s[i] != c
}

/// Splitting never gives no piece.
proof fn lemma_split_nonempty(s: Seq<char>, c: char)
    ensures
        split_on(s, c).len() > 0,
{
}

/// A text without `c` is one piece.
proof fn lemma_split_free(s: Seq<char>, c: char)
    requires
        free_of(s, c),
    ensures
        split_on(s, c) == seq![s],
{
    crate::text::lemma_index_of_none(s, c);
}

/// Splitting at a separator splits the two sides apart.
proof fn lemma_split_concat(x: Seq<char>, y: Seq<char>, c: char)
    ensures
        split_on(x + seq![c] + y, c) == split_on(x, c) + split_on(y, c),
    decreases x.len(),
{
    let s = x + seq![c] + y;
    crate::text::lemma_index_of_props(x, c);
    match index_of(x, c) {
        Some(i) => {
            crate::text::lemma_index_of_found(s, c, i);
            crate::text::lemma_index_of_found(x, c, i);
            assert(s.take(i) =~= x.take(i));
            assert(s.skip(i + 1) =~= x.skip(i + 1) + seq![c] + y);
            lemma_split_concat(x.skip(i + 1), y, c);
            assert(seq![x.take(i)] + (split_on(x.skip(i + 1), c) + split_on(y, c)) =~= seq![x.take(i)] + split_on(
                x.skip(i + 1),
                c,
            ) + split_on(y, c));
        },
        None => {
            assert(s[x.len() as int] == c);
            assert forall|j: int| 0 <= j < x.len() implies s[j] != c by {
                assert(s[j] == x[j]);
            }
            crate::text::lemma_index_of_found(s, c, x.len() as int);
            assert(s.take(x.len() as int) =~= x);
            assert(s.skip(x.len() as int + 1) =~= y);
            lemma_split_free(x, c);
        },
    }
}

/// Joining pieces without `c` on `c` and splitting on it gives the pieces.
pub proof fn lemma_split_of_join(ps: Seq<Seq<char>>, c: char)
    requires
        ps.len() > 0,
        forall|i: int| 0 <= i < ps.len() ==> free_of(#[trigger] ps[i], c),
    ensures
        split_on(join(ps, seq![c]), c) == ps,
    decreases ps.len(),
{
    if ps.len() == 1 {
        lemma_split_free(ps[0], c);
        assert(seq![ps[0]] =~= ps);
    } else {
        let d = ps.drop_last();
        lemma_split_of_join(d, c);
        lemma_split_concat(join(d, seq![c]), ps.last(), c);
        lemma_split_free(ps.last(), c);
        assert(d + seq![ps.last()] =~= ps);
    }
}

/// Joining, the first piece first.
proof fn lemma_join_front(a: Seq<char>, ps: Seq<Seq<char>>, sep: Seq<char>)
    requires
        ps.len() > 0,
    ensures
        join(seq![a] + ps, sep) == a + sep + join(ps, sep),
    decreases ps.len(),
{
    let q = seq![a] + ps;
    if ps.len() == 1 {
        assert(q.drop_last() =~= seq![a]);
        assert(q.last() == ps[0]);
        assert(join(seq![a], sep) == a);
        assert(join(ps, sep) == ps[0]);
        assert(join(q, sep) == join(q.drop_last(), sep) + sep + q.last());
    } else {
        lemma_join_front(a, ps.drop_last(), sep);
        assert(q.drop_last() =~= seq![a] + ps.drop_last());
        assert(q.last() == ps.last());
        assert(join(q, sep) == join(q.drop_last(), sep) + sep + q.last());
        assert(join(ps, sep) == join(ps.drop_last(), sep) + sep + ps.last());
        assert(a + sep + join(ps.drop_last(), sep) + sep + ps.last() =~= a + sep + (join(ps.drop_last(), sep) + sep
            + ps.last()));
    }
}

/// Splitting on `c` and joining on it gives the text back.
pub proof fn lemma_join_of_split(s: Seq<char>, c: char)
    ensures
        join(split_on(s, c), seq![c]) == s,
    decreases s.len(),
{
    crate::text::lemma_index_of_props(s, c);
    match index_of(s, c) {
        Some(i) => {
            let rest = s.skip(i + 1);
            lemma_join_of_split(rest, c);
            lemma_split_nonempty(rest, c);
            lemma_join_front(s.take(i), split_on(rest, c), seq![c]);
            assert(s.take(i) + seq![c] + rest =~= s);
        },
        None => {
        },
    }
}

/// Inserting entries with distinct keys one after the other gives them back
/// in their order.
proof fn lemma_insert_all_distinct(ps: Seq<(Seq<char>, Seq<char>)>)
    requires
        forall|i: int, j: int| 0 <= i < j < ps.len() ==> ps[i].0 != ps[j].0,
    ensures
        insert_all(ps) == ps,
    decreases ps.len(),
{
    if ps.len() > 0 {
        let d = ps.drop_last();
        assert forall|i: int, j: int| 0 <= i < j < d.len() implies d[i].0 != d[j].0 by {
            assert(d[i] == ps[i] && d[j] == ps[j]);
        }
        lemma_insert_all_distinct(d);
        assert forall|j: int| 0 <= j < d.len() implies d[j].0 != ps.last().0 by {
            assert(d[j] == ps[j]);
        }
        crate::props::lemma_key_index_none(d, ps.last().0);
        assert(d.push((ps.last().0, ps.last().1)) =~= ps);
    }
}

/// The last blank line, when every line after a blank one is not blank.
proof fn lemma_last_blank_before(a: Seq<Seq<char>>, p: Seq<Seq<char>>)
    requires
        a.len() > 0 ==> is_blank(a.last()),
        forall|i: int| 0 <= i < p.len() ==> !is_blank(#[trigger] p[i]),
    ensures
        last_blank(a + p) == a.len() - 1,
    decreases p.len(),
{
    if p.len() == 0 {
        assert(a + p =~= a);
        if a.len() == 0 {
            assert(last_blank(a) == -1);
        }
    } else {
        let q = a + p;
        assert(q.last() == p.last());
        assert(!is_blank(p[p.len() - 1]));
        assert(q.drop_last() =~= a + p.drop_last());
        assert forall|i: int| 0 <= i < p.drop_last().len() implies !is_blank(#[trigger] p.drop_last()[i]) by {
            assert(p.drop_last()[i] == p[i]);
        }
        lemma_last_blank_before(a, p.drop_last());
    }
}

/// The type an item's properties give it.
pub open spec fn type_of(ps: Seq<(Seq<char>, Seq<char>)>) -> Option<int> {
    match lookup(ps, "type_"@) {
        Some(t) => parse_i64_spec(t),
        None => None,
    }
}

/// Whether the text format carries the item: each property can be written
/// as a line and read back, `type_` is an integer, `id` is empty or an item
/// id, the title is one line, a note with a title has a body and another
/// item none, and an item without a title has the body that reading gives
/// it. (The keys of an item's properties are distinct by construction.)
pub open spec fn carried(v: ItemView) -> bool {
    let ps = v.props;
    &&& ps.len() > 0
    &&& forall|i: int| 0 <= i < ps.len() ==> prop_readable(#[trigger] ps[i].0, ps[i].1)
    &&& type_of(ps) is Some
    &&& !(match lookup(ps, "id"@) {
        Some(id) => id.len() > 0 && !is_item_id(id),
        None => false,
    })
    &&& match v.title {
        Some(t) => free_of(t, '\n') && (v.body is Some <==> type_of(ps) == Some(1int)),
        None => v.body == (if type_of(ps) == Some(1int) && key_index(ps, "encryption_cipher_text"@) is None {
            Some(Seq::<char>::empty())
        } else {
            None
        }),
    }
}

/// A carried item whose keys are distinct.
pub open spec fn readable(v: ItemView) -> bool {
    &&& carried(v)
    &&& crate::props::unique_keys(v.props)
}

/// The property lines of an item's text.
pub open spec fn prop_lines_of(ps: Seq<(Seq<char>, Seq<char>)>) -> Seq<Seq<char>> {
    ps.map_values(|e: (Seq<char>, Seq<char>)| prop_line(e))
}

/// The lines that come before the property lines when reading the text of
/// `v` back: the title, and the body's lines after a blank one.
pub open spec fn head_lines(v: ItemView) -> Seq<Seq<char>> {
    match v.title {
        None => Seq::empty(),
        Some(t) => match v.body {
            Some(b) => if b.len() > 0 {
                seq![t, Seq::<char>::empty()] + split_on(b, '\n')
            } else {
                seq![t]
            },
            None => seq![t],
        },
    }
}

/// The property lines read back: one line each, none blank, each giving
/// back its property, and all of them from the joined text.
proof fn lemma_prop_lines(ps: Seq<(Seq<char>, Seq<char>)>)
    requires
        ps.len() > 0,
        forall|i: int| 0 <= i < ps.len() ==> prop_readable(#[trigger] ps[i].0, ps[i].1),
        forall|i: int, j: int| 0 <= i < j < ps.len() ==> ps[i].0 != ps[j].0,
    ensures
        forall|i: int| 0 <= i < prop_lines_of(ps).len() ==> !is_blank(#[trigger] prop_lines_of(ps)[i]) && has_colon(
            prop_lines_of(ps)[i],
        ),
        split_on(join(prop_lines_of(ps), seq!['\n']), '\n') == prop_lines_of(ps),
        insert_all(prop_lines_of(ps).map_values(|l: Seq<char>| prop_of_line(l))) == ps,
{
    let pls = prop_lines_of(ps);
    assert forall|i: int| 0 <= i < pls.len() implies free_of(#[trigger] pls[i], '\n') && !is_blank(pls[i])
        && has_colon(pls[i]) && prop_of_line(pls[i]) == ps[i] by {
        lemma_prop_line_round_trip(ps[i].0, ps[i].1);
        assert(pls[i] == prop_line((ps[i].0, ps[i].1)));
    }
    lemma_split_of_join(pls, '\n');
    assert(pls.map_values(|l: Seq<char>| prop_of_line(l)) =~= ps);
    lemma_insert_all_distinct(ps);
}

/// Where the properties start in the text of an item and what comes before.
#[verifier::rlimit(40)]
proof fn lemma_layout(v: ItemView)
    requires
        readable(v),
    ensures
        ({
            let lines = split_on(serialize_spec(v), '\n');
            let k = last_blank(lines);
            &&& lines.skip(k + 1) == prop_lines_of(v.props)
            &&& (if k > 0 {
                lines.take(k)
            } else {
                Seq::<Seq<char>>::empty()
            }) == head_lines(v)
        }),
{
    let ps = v.props;
    let pls = prop_lines_of(ps);
    let big = join(pls, seq!['\n']);
    let sep = seq!['\n', '\n'];
    let nl = seq!['\n'];
    let e = Seq::<char>::empty();
    let none = Seq::<Seq<char>>::empty();
    lemma_prop_lines(ps);
    lemma_split_free(e, '\n');
    assert(is_blank(e)) by {
        assert(crate::text::trim(e) =~= e);
    }
    let lines = split_on(serialize_spec(v), '\n');
    match v.title {
        None => {
            assert(serialize_spec(v) == big) by {
                assert(none + none + seq![big] =~= seq![big]);
            }
            lemma_last_blank_before(none, pls);
            assert(none + pls =~= pls);
            assert(pls.skip(0) =~= pls);
        },
        Some(t) => {
            lemma_split_free(t, '\n');
            let b = match v.body {
                Some(b) => b,
                None => e,
            };
            if b.len() == 0 {
                let parts = seq![t, big];
                assert(serialize_spec(v) == t + sep + big) by {
                    assert(seq![t] + none + seq![big] =~= parts);
                    assert(parts.drop_last() =~= seq![t]);
                    assert(join(seq![t], sep) == t);
                    assert(join(parts, sep) == join(parts.drop_last(), sep) + sep + parts.last());
                }
                assert(t + sep + big =~= t + nl + (e + nl + big));
                lemma_split_concat(t, e + nl + big, '\n');
                lemma_split_concat(e, big, '\n');
                let a = seq![t, e];
                assert(lines =~= a + pls);
                lemma_last_blank_before(a, pls);
                assert(lines.take(1) =~= seq![t]);
                assert(lines.skip(2) =~= pls);
            } else {
                let parts = seq![t, b, big];
                assert(serialize_spec(v) == t + sep + b + sep + big) by {
                    assert(seq![t] + seq![b] + seq![big] =~= parts);
                    assert(parts.drop_last() =~= seq![t, b]);
                    assert(seq![t, b].drop_last() =~= seq![t]);
                    assert(join(seq![t], sep) == t);
                    assert(join(seq![t, b], sep) == join(seq![t], sep) + sep + b);
                    assert(join(parts, sep) == join(parts.drop_last(), sep) + sep + parts.last());
                }
                assert(t + sep + b + sep + big =~= t + nl + (e + nl + (b + nl + (e + nl + big))));
                lemma_split_concat(t, e + nl + (b + nl + (e + nl + big)), '\n');
                lemma_split_concat(e, b + nl + (e + nl + big), '\n');
                lemma_split_concat(b, e + nl + big, '\n');
                lemma_split_concat(e, big, '\n');
                let sb = split_on(b, '\n');
                let a = seq![t, e] + sb + seq![e];
                assert(lines =~= a + pls);
                lemma_last_blank_before(a, pls);
                assert(lines.take(sb.len() as int + 2) =~= seq![t, e] + sb);
                assert(lines.skip(sb.len() as int + 3) =~= pls);
            }
        },
    }
}

/// Parsing the text that serializing writes gives the item back, for every
/// item the format carries.
pub proof fn lemma_item_round_trip(v: ItemView)
    requires
        readable(v),
    ensures
        parse_spec(serialize_spec(v)) == Some(v),
{
    let ps = v.props;
    lemma_prop_lines(ps);
    lemma_layout(v);
    let bl = head_lines(v);
    if let Some(t) = v.title {
        if let Some(b) = v.body {
            if b.len() > 0 {
                lemma_split_nonempty(b, '\n');
                assert(bl.skip(2) =~= split_on(b, '\n'));
                lemma_join_of_split(b, '\n');
            } else {
                assert(join(Seq::<Seq<char>>::empty(), seq!['\n']) == b);
            }
        }
    }
}

} // verus!
