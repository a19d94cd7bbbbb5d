//! Escaping of property values read back: a value without a backslash right
//! before a line break comes back unchanged from `escape` then `unescape`,
//! and a property line from the property it was written from.
use vstd::prelude::*;

use crate::item::{escape_spec, has_colon, keeps_raw, prop_line, prop_of_line, unescape_spec};
use crate::text::{index_of, is_ws, replace_all, trim, trim_end, trim_start};

verus! {

/// Whether no backslash stands right before a line break (`\n` or `\r`).
pub open spec fn no_escaped_break(v: Seq<char>) -> bool {
    forall|i: int| 0 <= i < v.len() - 1 && #[trigger] v[i] == '\\' ==> v[i + 1] != '\n' && v[i + 1] != '\r'
}

/// The pattern of replacement step `k`: the four of escaping, then the four
/// of unescaping.
spec fn pat(k: nat) -> Seq<char> {
    if k == 1 || k == 5 {
        seq!['\\', 'n']
    } else if k == 2 || k == 6 {
        seq!['\\', 'r']
    } else if k == 3 {
        seq!['\n']
    } else if k == 4 {
        seq!['\r']
    } else if k == 7 {
        seq!['\\', '\n']
    } else {
        seq!['\\', '\r']
    }
}

/// What step `k` puts in place of its pattern.
spec fn rep(k: nat) -> Seq<char> {
    if k == 1 {
        seq!['\\', '\\', 'n']
    } else if k == 2 {
        seq!['\\', '\\', 'r']
    } else if k == 3 || k == 7 {
        seq!['\\', 'n']
    } else if k == 4 || k == 8 {
        seq!['\\', 'r']
    } else if k == 5 {
        seq!['\n']
    } else {
        seq!['\r']
    }
}

/// The value after the first `k` steps.
spec fn stage(k: nat, v: Seq<char>) -> Seq<char>
    decreases k,
{
    if k == 0 {
        v
    } else {
        replace_all(stage((k - 1) as nat, v), pat(k), rep(k))
    }
}

/// Replacing in one character.
proof fn lemma_r1(x: char, p: Seq<char>, r: Seq<char>)
    requires
        p.len() == 1 || p.len() == 2,
    ensures
        replace_all(seq![x], p, r) == if p.len() == 1 && p[0] == x {
            r
        } else {
            seq![x]
        },
{
    let s = seq![x];
    let e = Seq::<char>::empty();
    assert(s.drop_first() =~= e);
    assert(s.skip(1) =~= e);
    assert(replace_all(e, p, r) == e);
    if p.len() == 1 && p[0] == x {
        assert(s.take(1) =~= p);
        assert(replace_all(s, p, r) == r + replace_all(e, p, r));
        assert(r + e =~= r);
    } else {
        if p.len() == 1 {
            assert(s.take(1)[0] != p[0]);
        }
        assert(replace_all(s, p, r) == seq![x] + replace_all(e, p, r));
        assert(seq![x] + e =~= seq![x]);
    }
}

/// Replacing in two characters.
proof fn lemma_r2(x: char, y: char, p: Seq<char>, r: Seq<char>)
    requires
        p.len() == 1 || p.len() == 2,
    ensures
        replace_all(seq![x, y], p, r) == if p.len() == 2 && p[0] == x && p[1] == y {
            r
        } else if p.len() == 1 && p[0] == x {
            r + replace_all(seq![y], p, r)
        } else {
            seq![x] + replace_all(seq![y], p, r)
        },
{
    let s = seq![x, y];
    let e = Seq::<char>::empty();
    assert(s.drop_first() =~= seq![y]);
    assert(s.skip(1) =~= seq![y]);
    assert(s.skip(2) =~= e);
    assert(replace_all(e, p, r) == e);
    if p.len() == 2 {
        if p[0] == x && p[1] == y {
            assert(s.take(2) =~= p);
            assert(replace_all(s, p, r) == r + replace_all(e, p, r));
            assert(r + e =~= r);
        } else if p[0] != x {
            assert(s.take(2)[0] != p[0]);
        } else {
            assert(s.take(2)[1] != p[1]);
        }
    } else {
        if p[0] == x {
            assert(s.take(1) =~= p);
        } else {
            assert(s.take(1)[0] != p[0]);
        }
    }
}

/// Replacing in three characters.
proof fn lemma_r3(x: char, y: char, z: char, p: Seq<char>, r: Seq<char>)
    requires
        p.len() == 1 || p.len() == 2,
    ensures
        replace_all(seq![x, y, z], p, r) == if p.len() == 2 && p[0] == x && p[1] == y {
            r + replace_all(seq![z], p, r)
        } else if p.len() == 1 && p[0] == x {
            r + replace_all(seq![y, z], p, r)
        } else {
            seq![x] + replace_all(seq![y, z], p, r)
        },
{
    let s = seq![x, y, z];
    assert(s.drop_first() =~= seq![y, z]);
    assert(s.skip(1) =~= seq![y, z]);
    assert(s.skip(2) =~= seq![z]);
    if p.len() == 2 {
        if p[0] == x && p[1] == y {
            assert(s.take(2) =~= p);
        } else if p[0] != x {
            assert(s.take(2)[0] != p[0]);
        } else {
            assert(s.take(2)[1] != p[1]);
        }
    } else {
        if p[0] == x {
            assert(s.take(1) =~= p);
        } else {
            assert(s.take(1)[0] != p[0]);
        }
    }
}

/// The patterns and replacements, character by character.
proof fn lemma_pats()
    ensures
        pat(1).len() == 2 && pat(1)[0] == '\\' && pat(1)[1] == 'n',
        pat(2).len() == 2 && pat(2)[0] == '\\' && pat(2)[1] == 'r',
        pat(3).len() == 1 && pat(3)[0] == '\n',
        pat(4).len() == 1 && pat(4)[0] == '\r',
        pat(5).len() == 2 && pat(5)[0] == '\\' && pat(5)[1] == 'n',
        pat(6).len() == 2 && pat(6)[0] == '\\' && pat(6)[1] == 'r',
        pat(7).len() == 2 && pat(7)[0] == '\\' && pat(7)[1] == '\n',
        pat(8).len() == 2 && pat(8)[0] == '\\' && pat(8)[1] == '\r',
        rep(1) == seq!['\\', '\\', 'n'],
        rep(2) == seq!['\\', '\\', 'r'],
        rep(3) == seq!['\\', 'n'],
        rep(4) == seq!['\\', 'r'],
        rep(5) == seq!['\n'],
        rep(6) == seq!['\r'],
        rep(7) == seq!['\\', 'n'],
        rep(8) == seq!['\\', 'r'],
{
}

/// One character that starts no pattern and is no line break goes through
/// every step unchanged.
proof fn lemma_plain_char(c: char, k: nat)
    requires
        c != '\n' && c != '\r',
        k <= 8,
    ensures
        stage(k, seq![c]) == seq![c],
    decreases k,
{
    if k > 0 {
        lemma_plain_char(c, (k - 1) as nat);
        lemma_pats();
        lemma_r1(c, pat(k), rep(k));
    }
}

/// The steps on a backslash followed by `n`.
proof fn lemma_stages_bn()
    ensures
        stage(1, seq!['\\', 'n']) == seq!['\\', '\\', 'n'],
        stage(2, seq!['\\', 'n']) == seq!['\\', '\\', 'n'],
        stage(3, seq!['\\', 'n']) == seq!['\\', '\\', 'n'],
        stage(4, seq!['\\', 'n']) == seq!['\\', '\\', 'n'],
        stage(5, seq!['\\', 'n']) == seq!['\\', '\n'],
        stage(6, seq!['\\', 'n']) == seq!['\\', '\n'],
        stage(7, seq!['\\', 'n']) == seq!['\\', 'n'],
        stage(8, seq!['\\', 'n']) == seq!['\\', 'n'],
{
    lemma_pats();
    let a = seq!['\\', 'n'];
    assert(stage(0, a) == a);
    let bbn = seq!['\\', '\\', 'n'];
    lemma_r2('\\', 'n', pat(1), rep(1));
    assert(stage(1, a) == bbn);
    lemma_r3('\\', '\\', 'n', pat(2), rep(2));
    lemma_r2('\\', 'n', pat(2), rep(2));
    lemma_r1('n', pat(2), rep(2));
    assert(seq!['\\'] + (seq!['\\'] + seq!['n']) =~= bbn);
    assert(stage(2, a) == bbn);
    lemma_r3('\\', '\\', 'n', pat(3), rep(3));
    lemma_r2('\\', 'n', pat(3), rep(3));
    lemma_r1('n', pat(3), rep(3));
    assert(stage(3, a) == bbn);
    lemma_r3('\\', '\\', 'n', pat(4), rep(4));
    lemma_r2('\\', 'n', pat(4), rep(4));
    lemma_r1('n', pat(4), rep(4));
    assert(stage(4, a) == bbn);
    lemma_r3('\\', '\\', 'n', pat(5), rep(5));
    lemma_r2('\\', 'n', pat(5), rep(5));
    assert(seq!['\\'] + seq!['\n'] =~= seq!['\\', '\n']);
    assert(stage(5, a) == seq!['\\', '\n']);
    lemma_r2('\\', '\n', pat(6), rep(6));
    lemma_r1('\n', pat(6), rep(6));
    assert(stage(6, a) == seq!['\\', '\n']);
    lemma_r2('\\', '\n', pat(7), rep(7));
    assert(stage(7, a) == a);
    lemma_r2('\\', 'n', pat(8), rep(8));
    lemma_r1('n', pat(8), rep(8));
    assert(stage(8, a) == a);
}

/// The steps on a backslash followed by `r`.
proof fn lemma_stages_br()
    ensures
        stage(1, seq!['\\', 'r']) == seq!['\\', 'r'],
        stage(2, seq!['\\', 'r']) == seq!['\\', '\\', 'r'],
        stage(3, seq!['\\', 'r']) == seq!['\\', '\\', 'r'],
        stage(4, seq!['\\', 'r']) == seq!['\\', '\\', 'r'],
        stage(5, seq!['\\', 'r']) == seq!['\\', '\\', 'r'],
        stage(6, seq!['\\', 'r']) == seq!['\\', '\r'],
        stage(7, seq!['\\', 'r']) == seq!['\\', '\r'],
        stage(8, seq!['\\', 'r']) == seq!['\\', 'r'],
{
    lemma_pats();
    let a = seq!['\\', 'r'];
    assert(stage(0, a) == a);
    let bbr = seq!['\\', '\\', 'r'];
    lemma_r2('\\', 'r', pat(1), rep(1));
    lemma_r1('r', pat(1), rep(1));
    assert(stage(1, a) == a);
    lemma_r2('\\', 'r', pat(2), rep(2));
    assert(stage(2, a) == bbr);
    lemma_r3('\\', '\\', 'r', pat(3), rep(3));
    lemma_r2('\\', 'r', pat(3), rep(3));
    lemma_r1('r', pat(3), rep(3));
    assert(seq!['\\'] + (seq!['\\'] + seq!['r']) =~= bbr);
    assert(stage(3, a) == bbr);
    lemma_r3('\\', '\\', 'r', pat(4), rep(4));
    lemma_r2('\\', 'r', pat(4), rep(4));
    lemma_r1('r', pat(4), rep(4));
    assert(stage(4, a) == bbr);
    lemma_r3('\\', '\\', 'r', pat(5), rep(5));
    lemma_r2('\\', 'r', pat(5), rep(5));
    lemma_r1('r', pat(5), rep(5));
    assert(stage(5, a) == bbr);
    lemma_r3('\\', '\\', 'r', pat(6), rep(6));
    lemma_r2('\\', 'r', pat(6), rep(6));
    assert(seq!['\\'] + seq!['\r'] =~= seq!['\\', '\r']);
    assert(stage(6, a) == seq!['\\', '\r']);
    lemma_r2('\\', '\r', pat(7), rep(7));
    lemma_r1('\r', pat(7), rep(7));
    assert(stage(7, a) == seq!['\\', '\r']);
    lemma_r2('\\', '\r', pat(8), rep(8));
    assert(stage(8, a) == a);
}

/// The steps on a line feed.
proof fn lemma_stages_lf()
    ensures
        stage(1, seq!['\n']) == seq!['\n'],
        stage(2, seq!['\n']) == seq!['\n'],
        stage(3, seq!['\n']) == seq!['\\', 'n'],
        stage(4, seq!['\n']) == seq!['\\', 'n'],
        stage(5, seq!['\n']) == seq!['\n'],
        stage(6, seq!['\n']) == seq!['\n'],
        stage(7, seq!['\n']) == seq!['\n'],
        stage(8, seq!['\n']) == seq!['\n'],
{
    lemma_pats();
    let a = seq!['\n'];
    assert(stage(0, a) == a);
    lemma_r1('\n', pat(1), rep(1));
    lemma_r1('\n', pat(2), rep(2));
    assert(stage(1, a) == a);
    assert(stage(2, a) == a);
    lemma_r1('\n', pat(3), rep(3));
    assert(stage(3, a) == seq!['\\', 'n']);
    lemma_r2('\\', 'n', pat(4), rep(4));
    lemma_r1('n', pat(4), rep(4));
    assert(stage(4, a) == seq!['\\', 'n']);
    lemma_r2('\\', 'n', pat(5), rep(5));
    assert(stage(5, a) == a);
    lemma_r1('\n', pat(6), rep(6));
    lemma_r1('\n', pat(7), rep(7));
    lemma_r1('\n', pat(8), rep(8));
}

/// The steps on a carriage return.
proof fn lemma_stages_cr()
    ensures
        stage(1, seq!['\r']) == seq!['\r'],
        stage(2, seq!['\r']) == seq!['\r'],
        stage(3, seq!['\r']) == seq!['\r'],
        stage(4, seq!['\r']) == seq!['\\', 'r'],
        stage(5, seq!['\r']) == seq!['\\', 'r'],
        stage(6, seq!['\r']) == seq!['\r'],
        stage(7, seq!['\r']) == seq!['\r'],
        stage(8, seq!['\r']) == seq!['\r'],
{
    lemma_pats();
    let a = seq!['\r'];
    assert(stage(0, a) == a);
    lemma_r1('\r', pat(1), rep(1));
    lemma_r1('\r', pat(2), rep(2));
    lemma_r1('\r', pat(3), rep(3));
    assert(stage(1, a) == a);
    assert(stage(2, a) == a);
    assert(stage(3, a) == a);
    lemma_r1('\r', pat(4), rep(4));
    assert(stage(4, a) == seq!['\\', 'r']);
    lemma_r2('\\', 'r', pat(5), rep(5));
    lemma_r1('r', pat(5), rep(5));
    assert(stage(5, a) == seq!['\\', 'r']);
    lemma_r2('\\', 'r', pat(6), rep(6));
    assert(stage(6, a) == a);
    lemma_r1('\r', pat(7), rep(7));
    lemma_r1('\r', pat(8), rep(8));
}

/// Replacing in two texts joined, when no occurrence of the pattern could
/// start in the first and end in the second.
proof fn lemma_r_split(x: Seq<char>, y: Seq<char>, p: Seq<char>, r: Seq<char>)
    requires
        p.len() == 1 || p.len() == 2,
        p.len() == 2 && x.len() > 0 && y.len() > 0 ==> !(x.last() == p[0] && y[0] == p[1]),
    ensures
        replace_all(x + y, p, r) == replace_all(x, p, r) + replace_all(y, p, r),
    decreases x.len(),
{
    let s = x + y;
    let e = Seq::<char>::empty();
    if x.len() == 0 {
        assert(s =~= y);
        assert(replace_all(x, p, r) == x);
        assert(x + replace_all(y, p, r) =~= replace_all(y, p, r));
    } else {
        let m = p.len() as int;
        if m <= x.len() {
            assert(s.take(m) =~= x.take(m));
            if x.take(m) == p {
                let x2 = x.skip(m);
                assert(s.skip(m) =~= x2 + y);
                if x2.len() > 0 {
                    assert(x2.last() == x.last());
                }
                lemma_r_split(x2, y, p, r);
                assert(r + replace_all(x2, p, r) + replace_all(y, p, r) =~= r + (replace_all(x2, p, r)
                    + replace_all(y, p, r)));
            } else {
                let x2 = x.drop_first();
                assert(s.drop_first() =~= x2 + y);
                assert(s[0] == x[0]);
                if x2.len() > 0 {
                    assert(x2.last() == x.last());
                }
                lemma_r_split(x2, y, p, r);
                assert(seq![x[0]] + replace_all(x2, p, r) + replace_all(y, p, r) =~= seq![x[0]] + (
                replace_all(x2, p, r) + replace_all(y, p, r)));
            }
        } else {
            assert(x.len() == 1 && m == 2);
            assert(x.drop_first() =~= e);
            assert(replace_all(e, p, r) == e);
            assert(replace_all(x, p, r) == seq![x[0]] + replace_all(e, p, r));
            assert(seq![x[0]] + e =~= seq![x[0]]);
            if y.len() > 0 {
                assert(s.take(2)[0] == x[0] && s.take(2)[1] == y[0]);
                assert(x.last() == x[0]);
                if s.take(2) == p {
                    assert(false);
                }
                assert(s.drop_first() =~= y);
                assert(s[0] == x[0]);
            } else {
                assert(s =~= x);
                assert(replace_all(y, p, r) == y);
                assert(replace_all(x, p, r) + y =~= replace_all(x, p, r));
            }
        }
    }
}

/// The length of the first piece of a value that the steps treat as one:
/// a backslash and the `n` or `r` after it, or one character.
spec fn atom_len(v: Seq<char>) -> int {
    if v.len() >= 2 && v[0] == '\\' && (v[1] == 'n' || v[1] == 'r') {
        2
    } else {
        1
    }
}

/// What the steps make of one piece: never empty, starting with the same
/// character unless it is a line break, ending with a backslash only when
/// it is a lone backslash, and the same piece after all eight steps.
proof fn lemma_atom(a: Seq<char>, k: nat)
    requires
        k <= 8,
        (a.len() == 2 && a[0] == '\\' && (a[1] == 'n' || a[1] == 'r')) || a.len() == 1,
    ensures
        stage(k, a).len() > 0,
        a[0] != '\n' && a[0] != '\r' ==> stage(k, a)[0] == a[0],
        stage(k, a).last() == '\\' ==> a.len() == 1 && a[0] == '\\',
        stage(8, a) == a,
{
    assert(stage(0, a) == a);
    if a.len() == 2 {
        if a[1] == 'n' {
            assert(a =~= seq!['\\', 'n']);
            lemma_stages_bn();
        } else {
            assert(a =~= seq!['\\', 'r']);
            lemma_stages_br();
        }
    } else {
        let c = a[0];
        assert(a =~= seq![c]);
        if c == '\n' {
            lemma_stages_lf();
        } else if c == '\r' {
            lemma_stages_cr();
        } else {
            lemma_plain_char(c, k);
            lemma_plain_char(c, 8);
        }
    }
    assert(k == 0 || k == 1 || k == 2 || k == 3 || k == 4 || k == 5 || k == 6 || k == 7 || k == 8);
}

/// The steps leave an empty value empty.
proof fn lemma_stage_empty(k: nat)
    ensures
        stage(k, Seq::<char>::empty()) == Seq::<char>::empty(),
    decreases k,
{
    if k > 0 {
        lemma_stage_empty((k - 1) as nat);
    }
}

/// Every step works on the first piece and the rest apart.
proof fn lemma_stage_split(v: Seq<char>, k: nat)
    requires
        v.len() > 0,
        no_escaped_break(v),
        k <= 8,
    ensures
        stage(k, v) == stage(k, v.take(atom_len(v))) + stage(k, v.skip(atom_len(v))),
    decreases v.len(), k,
{
    let n = atom_len(v);
    let a = v.take(n);
    let rest = v.skip(n);
    if k == 0 {
        assert(v =~= a + rest);
    } else {
        let j = (k - 1) as nat;
        lemma_stage_split(v, j);
        let x = stage(j, a);
        let y = stage(j, rest);
        lemma_pats();
        lemma_atom(a, j);
        if pat(k).len() == 2 && x.len() > 0 && y.len() > 0 && x.last() == '\\' {
            assert(a.len() == 1 && a[0] == '\\');
            assert(v[0] == '\\');
            assert(rest.len() > 0) by {
                if rest.len() == 0 {
                    assert(rest =~= Seq::<char>::empty());
                    lemma_stage_empty(j);
                }
            }
            assert(rest[0] == v[1]);
            assert(v[1] != '\n' && v[1] != '\r');
            assert(v[1] != 'n' && v[1] != 'r');
            assert(no_escaped_break(rest)) by {
                assert forall|i: int| 0 <= i < rest.len() - 1 && #[trigger] rest[i] == '\\' implies rest[i + 1]
                    != '\n' && rest[i + 1] != '\r' by {
                    assert(rest[i] == v[i + 1] && rest[i + 1] == v[i + 2]);
                }
            }
            lemma_stage_split(rest, j);
            let a2 = rest.take(atom_len(rest));
            lemma_atom(a2, j);
            assert(a2[0] == rest[0]);
            assert(y[0] == stage(j, a2)[0]);
        }
        lemma_r_split(x, y, pat(k), rep(k));
    }
}

/// All eight steps give the value back.
proof fn lemma_stages_identity(v: Seq<char>)
    requires
        no_escaped_break(v),
    ensures
        stage(8, v) == v,
    decreases v.len(),
{
    if v.len() == 0 {
        lemma_stage_empty(8);
        assert(v =~= Seq::<char>::empty());
    } else {
        let n = atom_len(v);
        let rest = v.skip(n);
        lemma_stage_split(v, 8);
        lemma_atom(v.take(n), 8);
        assert(no_escaped_break(rest)) by {
            assert forall|i: int| 0 <= i < rest.len() - 1 && #[trigger] rest[i] == '\\' implies rest[i + 1] != '\n'
                && rest[i + 1] != '\r' by {
                assert(rest[i] == v[i + n] && rest[i + 1] == v[i + n + 1]);
            }
        }
        lemma_stages_identity(rest);
        assert(v.take(n) + rest =~= v);
    }
}

/// The first four steps escape, the last four unescape.
proof fn lemma_stages_are_escaping(v: Seq<char>)
    ensures
        stage(4, v) == escape_spec(v),
        stage(8, v) == unescape_spec(escape_spec(v)),
{
    assert(stage(0, v) == v);
    assert(pat(1) == seq!['\\', 'n'] && rep(1) == seq!['\\', '\\', 'n']);
    assert(pat(2) == seq!['\\', 'r'] && rep(2) == seq!['\\', '\\', 'r']);
    assert(pat(3) == seq!['\n'] && rep(3) == seq!['\\', 'n']);
    assert(pat(4) == seq!['\r'] && rep(4) == seq!['\\', 'r']);
    assert(pat(5) == seq!['\\', 'n'] && rep(5) == seq!['\n']);
    assert(pat(6) == seq!['\\', 'r'] && rep(6) == seq!['\r']);
    assert(pat(7) == seq!['\\', '\n'] && rep(7) == seq!['\\', 'n']);
    assert(pat(8) == seq!['\\', '\r'] && rep(8) == seq!['\\', 'r']);
    let s1 = stage(1, v);
    let s2 = stage(2, v);
    let s3 = stage(3, v);
    let s4 = stage(4, v);
    let s5 = stage(5, v);
    let s6 = stage(6, v);
    let s7 = stage(7, v);
    assert(s4 == escape_spec(v));
    assert(stage(8, v) == unescape_spec(s4));
}

/// A property value in which no backslash stands right before a line break
/// reads back unchanged: unescaping its escaped text gives it again.
pub proof fn lemma_escape_round_trip(v: Seq<char>)
    requires
        no_escaped_break(v),
    ensures
        unescape_spec(escape_spec(v)) == v,
{
    lemma_stages_identity(v);
    lemma_stages_are_escaping(v);
}

/// Removing leading or trailing white space never makes a text longer.
proof fn lemma_trim_len(s: Seq<char>)
    ensures
        trim_start(s).len() <= s.len(),
        trim_end(s).len() <= s.len(),
    decreases s.len(),
{
    if s.len() > 0 {
        lemma_trim_len(s.drop_first());
        lemma_trim_len(s.drop_last());
    }
}

/// A text that trimming leaves alone has no white space at its ends.
proof fn lemma_trim_fixed(s: Seq<char>)
    requires
        trim(s) == s,
        s.len() > 0,
    ensures
        !is_ws(s[0]),
        !is_ws(s.last()),
{
    lemma_trim_len(s);
    lemma_trim_len(trim_start(s));
    if is_ws(s[0]) {
        lemma_trim_len(s.drop_first());
        assert(trim_start(s) == trim_start(s.drop_first()));
    }
    assert(trim_start(s) == s);
    if is_ws(s.last()) {
        lemma_trim_len(s.drop_last());
        assert(trim_end(s) == trim_end(s.drop_last()));
    }
}

/// A text with no white space at its ends is its own trim.
proof fn lemma_trim_keeps(s: Seq<char>)
    requires
        s.len() > 0 ==> !is_ws(s[0]) && !is_ws(s.last()),
    ensures
        trim(s) == s,
{
}

/// Whether the property `(k, v)` can be written as a line and read back:
/// the key has no colon, no line feed and no white space at its ends; the
/// escaped value has no white space at its ends; and unescaping gives the
/// value back, or, for a key whose value is kept raw, escaping leaves it as
/// it is. [`lemma_escape_round_trip`] shows the unescaping part for every
/// value without a backslash right before a line break.
pub open spec fn prop_readable(k: Seq<char>, v: Seq<char>) -> bool {
    &&& trim(k) == k
    &&& forall|i: int| 0 <= i < k.len() ==> #[trigger] k[i] != ':' && k[i] != '\n'
    &&& trim(escape_spec(v)) == escape_spec(v)
    &&& if keeps_raw(k) {
        escape_spec(v) == v
    } else {
        unescape_spec(escape_spec(v)) == v
    }
}

/// Whether `s` holds no `c`.
spec fn lacks(s: Seq<char>, c: char) -> bool {
    forall|i: int| 0 <= i < s.len() ==> #[trigger] s[i] != c
}

/// Replacing leaves no `c` when what is put in has none, and either the
/// text had none or `c` alone is what is replaced.
proof fn lemma_replace_lacks(s: Seq<char>, p: Seq<char>, r: Seq<char>, c: char)
    requires
        p.len() == 1 || p.len() == 2,
        lacks(r, c),
        p == seq![c] || lacks(s, c),
    ensures
        lacks(replace_all(s, p, r), c),
    decreases s.len(),
{
    if s.len() > 0 {
        let m = p.len() as int;
        if m <= s.len() && s.take(m) == p {
            let t = s.skip(m);
            assert(lacks(s, c) ==> lacks(t, c)) by {
                if lacks(s, c) {
                    assert forall|i: int| 0 <= i < t.len() implies #[trigger] t[i] != c by {
                        assert(t[i] == s[i + m]);
                    }
                }
            }
            lemma_replace_lacks(t, p, r, c);
            let x = replace_all(t, p, r);
            assert forall|i: int| 0 <= i < (r + x).len() implies #[trigger] (r + x)[i] != c by {
                if i >= r.len() {
                    assert((r + x)[i] == x[i - r.len()]);
                }
            }
        } else {
            let t = s.drop_first();
            assert(s[0] != c) by {
                if p == seq![c] && s[0] == c {
                    assert(s.take(1) =~= p);
                }
            }
            assert(lacks(s, c) ==> lacks(t, c)) by {
                if lacks(s, c) {
                    assert forall|i: int| 0 <= i < t.len() implies #[trigger] t[i] != c by {
                        assert(t[i] == s[i + 1]);
                    }
                }
            }
            lemma_replace_lacks(t, p, r, c);
            let x = replace_all(t, p, r);
            assert forall|i: int| 0 <= i < (seq![s[0]] + x).len() implies #[trigger] (seq![s[0]] + x)[i] != c by {
                if i >= 1 {
                    assert((seq![s[0]] + x)[i] == x[i - 1]);
                }
            }
        }
    }
}

/// Escaping leaves no line feed.
proof fn lemma_escape_no_lf(v: Seq<char>)
    ensures
        lacks(escape_spec(v), '\n'),
{
    lemma_stages_are_escaping(v);
    lemma_pats();
    let s2 = stage(2, v);
    assert(pat(3) == seq!['\n'] && rep(3) == seq!['\\', 'n']);
    assert(lacks(rep(3), '\n'));
    lemma_replace_lacks(s2, pat(3), rep(3), '\n');
    assert(stage(3, v) == replace_all(s2, pat(3), rep(3)));
    assert(lacks(rep(4), '\n'));
    lemma_replace_lacks(stage(3, v), pat(4), rep(4), '\n');
    assert(stage(4, v) == replace_all(stage(3, v), pat(4), rep(4)));
}

/// A property line reads back as the property it was written from; it holds
/// no line feed and is not blank.
pub proof fn lemma_prop_line_round_trip(k: Seq<char>, v: Seq<char>)
    requires
        prop_readable(k, v),
    ensures
        has_colon(prop_line((k, v))),
        prop_of_line(prop_line((k, v))) == (k, v),
        forall|i: int| 0 <= i < prop_line((k, v)).len() ==> #[trigger] prop_line((k, v))[i] != '\n',
        trim(prop_line((k, v))).len() > 0,
{
    let e = escape_spec(v);
    lemma_escape_no_lf(v);
    if e.len() > 0 {
        lemma_trim_fixed(e);
    }
    if k.len() > 0 {
        lemma_trim_fixed(k);
    }
    let l = prop_line((k, v));
    assert(l == k + seq![':', ' '] + e);
    let t = if e.len() > 0 {
        l
    } else {
        k + seq![':']
    };
    assert(trim(l) == t) by {
        if e.len() > 0 {
            assert(l[0] == (if k.len() > 0 { k[0] } else { ':' }));
            assert(l.last() == e.last());
            lemma_trim_keeps(l);
        } else {
            assert(l =~= t + seq![' ']);
            assert(t.last() == ':');
            assert(t[0] == (if k.len() > 0 { k[0] } else { ':' }));
            assert(l.last() == ' ' && is_ws(' '));
            assert(l.drop_last() =~= t);
            assert(trim_start(l) == l);
            assert(trim_end(l) == trim_end(t));
            lemma_trim_keeps(t);
            assert(trim_start(t) == t);
        }
    }
    assert(t[k.len() as int] == ':');
    crate::text::lemma_index_of_found(t, ':', k.len() as int);
    assert(t.take(k.len() as int) =~= k);
    let raw = t.skip(k.len() as int + 1);
    assert(trim(raw) == e) by {
        if e.len() > 0 {
            assert(raw =~= seq![' '] + e);
            assert(raw.drop_first() =~= e);
            assert(is_ws(' '));
            assert(trim_start(raw) == trim_start(e));
            lemma_trim_keeps(e);
            assert(trim_start(e) == e);
        } else {
            assert(raw =~= Seq::<char>::empty());
        }
    }
}

} // verus!
