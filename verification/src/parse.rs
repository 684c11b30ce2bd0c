//! The line grammar of a topology description: one colony name followed by
//! zero or more `direction=destination` tokens separated by whitespace.
//! A malformed token (not exactly one `=`) is silently dropped; a blank line
//! yields nothing; a repeated direction replaces the earlier connection; a
//! repeated colony line replaces the earlier colony.

use vstd::prelude::*;
use vstd::string::StrSliceExecFns;

use crate::graph::{
    conns_wf, set_colony_model, Colony, ColonyModel, Conn, ConnModel, Graph,
};

verus! {

/// Whitespace, for the purpose of separating tokens.
pub open spec fn is_space(c: char) -> bool {
    c == ' ' || c == '\t' || c == '\r' || c == '\n'
}

/// The length of the maximal non-whitespace prefix.
pub open spec fn token_len(s: Seq<char>) -> nat
    decreases s.len(),
{
    if s.len() == 0 || is_space(s[0]) {
        0
    } else {
        1 + token_len(s.drop_first())
    }
}

/// A token never runs past the end of the text.
pub proof fn lemma_token_len_le(s: Seq<char>)
    ensures
        token_len(s) <= s.len(),
    decreases s.len(),
{
    if s.len() > 0 && !is_space(s[0]) {
        lemma_token_len_le(s.drop_first());
    }
}

/// The tokens of a line: the maximal non-whitespace runs, in order.
pub open spec fn split_ws(s: Seq<char>) -> Seq<Seq<char>>
    decreases s.len(),
    via split_ws_decreases
{
    if s.len() == 0 {
        Seq::empty()
    } else if is_space(s[0]) {
        split_ws(s.drop_first())
    } else {
        seq![s.take(token_len(s) as int)] + split_ws(s.skip(token_len(s) as int))
    }
}

#[via_fn]
proof fn split_ws_decreases(s: Seq<char>) {
    if s.len() > 0 && !is_space(s[0]) {
        lemma_token_len_le(s);
    }
}

/// A scan that stops at the first whitespace after at least one non-space
/// character finds exactly the token length.
pub proof fn lemma_token_len_exact(s: Seq<char>, k: int)
    requires
        0 <= k <= s.len(),
        forall|m: int| 0 <= m < k ==> !is_space(#[trigger] s[m]),
        k == s.len() || is_space(s[k]),
    ensures
        token_len(s) == k,
    decreases s.len(),
{
    if k == 0 {
    } else {
        let d = s.drop_first();
        assert(forall|m: int| 0 <= m < d.len() ==> #[trigger] d[m] == s[m + 1]);
        lemma_token_len_exact(d, k - 1);
    }
}

/// How many `=` characters a token holds.
pub open spec fn eq_count(t: Seq<char>) -> nat
    decreases t.len(),
{
    if t.len() == 0 {
        0
    } else {
        eq_count(t.drop_last()) + if t.last() == '=' {
            1nat
        } else {
            0nat
        }
    }
}

/// The index of the first `=` character (the token length if there is none).
pub open spec fn eq_index(t: Seq<char>) -> int
    decreases t.len(),
{
    if t.len() == 0 {
        0
    } else if t[0] == '=' {
        0
    } else {
        1 + eq_index(t.drop_first())
    }
}

/// A token without `=` characters has none at any position.
pub proof fn lemma_eq_count_zero(t: Seq<char>)
    requires
        eq_count(t) == 0,
    ensures
        forall|m: int| 0 <= m < t.len() ==> #[trigger] t[m] != '=',
    decreases t.len(),
{
    if t.len() > 0 {
        lemma_eq_count_zero(t.drop_last());
        assert(forall|m: int| 0 <= m < t.len() - 1 ==> #[trigger] t[m] == t.drop_last()[m]);
    }
}

/// A scan that finds the first `=` finds exactly `eq_index`.
pub proof fn lemma_eq_index_exact(t: Seq<char>, k: int)
    requires
        0 <= k < t.len(),
        t[k] == '=',
        forall|m: int| 0 <= m < k ==> #[trigger] t[m] != '=',
    ensures
        eq_index(t) == k,
    decreases t.len(),
{
    if k > 0 {
        let d = t.drop_first();
        assert(forall|m: int| 0 <= m < d.len() ==> #[trigger] d[m] == t[m + 1]);
        lemma_eq_index_exact(d, k - 1);
    }
}

/// The connection a token describes: `label=value` with exactly one `=`
/// yields a connection (label or value may be empty); anything else is
/// malformed and yields none.
pub open spec fn token_conn(t: Seq<char>) -> Option<ConnModel> {
    if eq_count(t) == 1 {
        Some(ConnModel { dir: t.take(eq_index(t)), dest: t.skip(eq_index(t) + 1) })
    } else {
        None
    }
}

/// The index of the first connection with this direction label, or -1.
pub open spec fn dir_index(conns: Seq<ConnModel>, d: Seq<char>) -> int
    decreases conns.len(),
{
    if conns.len() == 0 {
        -1
    } else if conns[0].dir == d {
        0
    } else {
        let r = dir_index(conns.drop_first(), d);
        if r == -1 {
            -1
        } else {
            1 + r
        }
    }
}

/// Record a connection: a fresh direction is appended, a repeated direction
/// replaces the earlier destination.
pub open spec fn upsert_conn(conns: Seq<ConnModel>, c: ConnModel) -> Seq<ConnModel> {
    let i = dir_index(conns, c.dir);
    if i == -1 {
        conns.push(c)
    } else {
        conns.update(i, c)
    }
}

/// What `dir_index` finds: -1 exactly when the direction is absent, else the
/// first index carrying it.
pub proof fn lemma_dir_index(conns: Seq<ConnModel>, d: Seq<char>)
    ensures
        dir_index(conns, d) == -1 <==> forall|i: int|
            0 <= i < conns.len() ==> (#[trigger] conns[i]).dir != d,
        dir_index(conns, d) != -1 ==> {
            let i = dir_index(conns, d);
            &&& 0 <= i < conns.len()
            &&& conns[i].dir == d
            &&& forall|k: int| 0 <= k < i ==> (#[trigger] conns[k]).dir != d
        },
    decreases conns.len(),
{
    if conns.len() > 0 && conns[0].dir != d {
        let dd = conns.drop_first();
        lemma_dir_index(dd, d);
        assert(forall|i: int| 0 < i < conns.len() ==> #[trigger] conns[i] == dd[i - 1]);
        if dir_index(dd, d) == -1 {
            assert forall|i: int| 0 <= i < conns.len() implies (#[trigger] conns[i]).dir != d by {
                if i > 0 {
                    assert(dd[i - 1].dir != d);
                }
            }
        }
    }
}

/// Recording a connection keeps direction labels unique.
pub proof fn lemma_upsert_conn_wf(conns: Seq<ConnModel>, c: ConnModel)
    requires
        conns_wf(conns),
    ensures
        conns_wf(upsert_conn(conns, c)),
{
    lemma_dir_index(conns, c.dir);
}

/// The connections accumulated from a line's tokens, in order, malformed
/// tokens dropped, repeated directions replaced.
pub open spec fn conns_of_tokens(toks: Seq<Seq<char>>) -> Seq<ConnModel>
    decreases toks.len(),
{
    if toks.len() == 0 {
        Seq::empty()
    } else {
        let rest = conns_of_tokens(toks.drop_last());
        match token_conn(toks.last()) {
            Some(c) => upsert_conn(rest, c),
            None => rest,
        }
    }
}

/// The accumulated connections of any token list have unique directions.
pub proof fn lemma_conns_of_tokens_wf(toks: Seq<Seq<char>>)
    ensures
        conns_wf(conns_of_tokens(toks)),
    decreases toks.len(),
{
    if toks.len() > 0 {
        lemma_conns_of_tokens_wf(toks.drop_last());
        match token_conn(toks.last()) {
            Some(c) => lemma_upsert_conn_wf(conns_of_tokens(toks.drop_last()), c),
            None => {},
        }
    }
}

/// The colony a line describes: its first token names it, the remaining
/// tokens are read as connections. A blank line describes nothing.
pub open spec fn line_colony(s: Seq<char>) -> Option<ColonyModel> {
    let toks = split_ws(s);
    if toks.len() == 0 {
        None
    } else {
        Some(ColonyModel { name: toks[0], conns: conns_of_tokens(toks.drop_first()) })
    }
}

/// The graph a whole description builds, line by line: each line's colony is
/// inserted, a repeated name replacing the earlier colony.
pub open spec fn map_model(lines: Seq<Seq<char>>) -> Seq<ColonyModel>
    decreases lines.len(),
{
    if lines.len() == 0 {
        Seq::empty()
    } else {
        let g = map_model(lines.drop_last());
        match line_colony(lines.last()) {
            Some(cm) => set_colony_model(g, cm),
            None => g,
        }
    }
}

/// Whitespace test, matching `is_space`.
fn is_space_exec(c: char) -> (r: bool)
    ensures
        r == is_space(c),
{
    c == ' ' || c == '\t' || c == '\r' || c == '\n'
}

/// Split a line into its whitespace-separated tokens.
pub fn split_ws_exec(s: &str) -> (toks: Vec<String>)
    ensures
        toks@.map_values(|t: String| t@) == split_ws(s@),
{
    let len = s.unicode_len();
    let mut toks: Vec<String> = Vec::new();
    let mut i: usize = 0;
    proof {
        assert(s@.skip(0) =~= s@);
        assert(toks@.map_values(|t: String| t@) =~~= Seq::<Seq<char>>::empty());
        assert(Seq::<Seq<char>>::empty() + split_ws(s@) =~~= split_ws(s@));
    }
    while i < len
        invariant
            len == s@.len(),
            i <= len,
            split_ws(s@) == toks@.map_values(|t: String| t@) + split_ws(s@.skip(i as int)),
        decreases len - i,
    {
        let ghost pre = toks@.map_values(|t: String| t@);
        let c = s.get_char(i);
        if is_space_exec(c) {
            proof {
                assert(s@.skip(i as int).drop_first() =~= s@.skip(i as int + 1));
            }
            i = i + 1;
        } else {
            let mut j = i + 1;
            while j < len && !is_space_exec(s.get_char(j))
                invariant
                    len == s@.len(),
                    i < j <= len,
                    forall|m: int| i <= m < j ==> !is_space(#[trigger] s@[m]),
                decreases len - j,
            {
                j = j + 1;
            }
            let tok = s.substring_char(i, j).to_owned();
            toks.push(tok);
            proof {
                let t = s@.skip(i as int);
                assert(forall|m: int| 0 <= m < t.len() ==> #[trigger] t[m] == s@[m + i]);
                lemma_token_len_exact(t, j - i);
                assert(t.take(j - i) =~= s@.subrange(i as int, j as int));
                assert(t.skip(j - i) =~= s@.skip(j as int));
                assert(toks@.map_values(|x: String| x@) =~~= pre.push(
                    s@.subrange(i as int, j as int),
                ));
                assert(split_ws(t) == seq![t.take(token_len(t) as int)] + split_ws(
                    t.skip(token_len(t) as int),
                ));
                assert(split_ws(s@) =~~= toks@.map_values(|x: String| x@) + split_ws(
                    s@.skip(j as int),
                ));
            }
            i = j;
        }
    }
    proof {
        assert(s@.skip(len as int) =~= Seq::<char>::empty());
        assert(split_ws(s@) =~~= toks@.map_values(|t: String| t@));
    }
    toks
}

/// Read one token as a connection: exactly one `=` splits it into a
/// direction label and a destination name; otherwise the token is malformed.
pub fn parse_token(t: &str) -> (r: Option<Conn>)
    ensures
        match r {
            Some(c) => token_conn(t@) == Some(c@),
            None => token_conn(t@) is None,
        },
{
    let len = t.unicode_len();
    let mut cnt: usize = 0;
    let mut first: usize = 0;
    let mut found = false;
    let mut i: usize = 0;
    while i < len
        invariant
            len == t@.len(),
            i <= len,
            cnt <= i,
            cnt == eq_count(t@.take(i as int)),
            found <==> cnt >= 1,
            found ==> first < i && t@[first as int] == '=' && forall|m: int|
                0 <= m < first ==> #[trigger] t@[m] != '=',
        decreases len - i,
    {
        let c = t.get_char(i);
        if c == '=' {
            cnt = cnt + 1;
            if !found {
                found = true;
                first = i;
                proof {
                    lemma_eq_count_zero(t@.take(i as int));
                    assert(forall|m: int|
                        0 <= m < i ==> #[trigger] t@[m] == t@.take(i as int)[m]);
                }
            }
        }
        i = i + 1;
        proof {
            assert(t@.take(i as int).drop_last() =~= t@.take(i as int - 1));
            assert(t@.take(i as int).last() == t@[i as int - 1]);
        }
    }
    proof {
        assert(t@.take(len as int) =~= t@);
    }
    if cnt == 1 {
        proof {
            lemma_eq_index_exact(t@, first as int);
            assert(t@.subrange(0, first as int) =~= t@.take(eq_index(t@)));
            assert(t@.subrange(first as int + 1, len as int) =~= t@.skip(eq_index(t@) + 1));
        }
        let dir = t.substring_char(0, first).to_owned();
        let dest = t.substring_char(first + 1, len).to_owned();
        Some(Conn { dir, dest })
    } else {
        None
    }
}

/// Record a connection in a colony's list: replace the destination of an
/// existing direction, or append a new one.
fn upsert_vec(conns: &mut Vec<Conn>, c: Conn)
    ensures
        final(conns)@.map_values(|x: Conn| x@) == upsert_conn(
            old(conns)@.map_values(|x: Conn| x@),
            c@,
        ),
{
    proof {
        lemma_dir_index(conns@.map_values(|x: Conn| x@), c@.dir);
    }
    let ghost m = conns@.map_values(|x: Conn| x@);
    let n = conns.len();
    let mut i: usize = 0;
    while i < n
        invariant
            n == conns@.len(),
            i <= n,
            conns@ == old(conns)@,
            m == conns@.map_values(|x: Conn| x@),
            forall|k: int| 0 <= k < i ==> (#[trigger] m[k]).dir != c@.dir,
        decreases n - i,
    {
        if conns[i].dir == c.dir {
            proof {
                lemma_dir_index(m, c@.dir);
                let ix = dir_index(m, c@.dir);
                assert(m[i as int].dir == c@.dir);
                assert(ix != -1);
                if ix < i as int {
                    assert(m[ix].dir != c@.dir);
                    assert(false);
                }
                if ix > i as int {
                    assert(m[i as int].dir != c@.dir);
                    assert(false);
                }
            }
            let _replaced = conns.remove(i);
            conns.insert(i, c);
            proof {
                assert(conns@.map_values(|x: Conn| x@) =~~= m.update(i as int, c@));
            }
            return ;
        }
        i = i + 1;
    }
    conns.push(c);
    proof {
        assert(conns@.map_values(|x: Conn| x@) =~~= m.push(c@));
    }
}

/// Read one line: the first token names the colony, every further token that
/// parses becomes a connection. A blank line yields `None`.
pub fn parse_line(line: &str) -> (r: Option<Colony>)
    ensures
        match r {
            Some(c) => line_colony(line@) == Some(c@) && conns_wf(c@.conns),
            None => line_colony(line@) is None,
        },
{
    let toks = split_ws_exec(line);
    let ghost tm = toks@.map_values(|t: String| t@);
    if toks.len() == 0 {
        return None;
    }
    let name = toks[0].clone();
    let mut conns: Vec<Conn> = Vec::new();
    let mut k: usize = 1;
    while k < toks.len()
        invariant
            tm == toks@.map_values(|t: String| t@),
            tm == split_ws(line@),
            1 <= k <= toks@.len(),
            conns@.map_values(|x: Conn| x@) == conns_of_tokens(tm.subrange(1, k as int)),
        decreases toks@.len() - k,
    {
        match parse_token(toks[k].as_str()) {
            Some(c) => {
                upsert_vec(&mut conns, c);
            },
            None => {},
        }
        k = k + 1;
        proof {
            assert(tm.subrange(1, k as int).drop_last() =~~= tm.subrange(1, k as int - 1));
            assert(tm.subrange(1, k as int).last() == tm[k as int - 1]);
        }
    }
    proof {
        assert(tm.subrange(1, tm.len() as int) =~~= tm.drop_first());
        lemma_conns_of_tokens_wf(tm.drop_first());
    }
    Some(Colony { name, connections: conns })
}

/// Build the graph a whole description yields, line by line.
pub fn parse_map(lines: &Vec<String>) -> (g: Graph)
    ensures
        g@ == map_model(lines@.map_values(|l: String| l@)),
        g.wf(),
{
    let ghost lm = lines@.map_values(|l: String| l@);
    let mut g = Graph::new();
    let mut i: usize = 0;
    proof {
        assert(lm.take(0) =~~= Seq::<Seq<char>>::empty());
    }
    while i < lines.len()
        invariant
            lm == lines@.map_values(|l: String| l@),
            i <= lines@.len(),
            g@ == map_model(lm.take(i as int)),
            g.wf(),
        decreases lines@.len() - i,
    {
        match parse_line(lines[i].as_str()) {
            Some(c) => {
                g.set_colony(c);
            },
            None => {},
        }
        i = i + 1;
        proof {
            assert(lm.take(i as int).drop_last() =~~= lm.take(i as int - 1));
            assert(lm.take(i as int).last() == lm[i as int - 1]);
        }
    }
    proof {
        assert(lm.take(lines@.len() as int) =~~= lm);
    }
    g
}

} // verus!
