//! A network of computers: the groups of three that are all connected to
//! each other, and the largest group of computers that are.
use vstd::prelude::*;
use crate::adaptors::{
    chosen, combinations, in_order, join, joined_with, offers, picked, rising_below, sort_names,
};
use crate::counting::{count_below, lemma_count_bound};
use crate::error::PuzzleError;
use crate::text::{chars_of, lines, pieces, rows, same_text, split_char, split_lines};

verus! {

/// The computers of a network by name, and for each the computers that it
/// is connected to, by their index among the names.
#[derive(Debug, PartialEq, Eq)]
pub struct Connections {
    pub names: Vec<Vec<char>>,
    pub links: Vec<Vec<usize>>,
}

/// The names of a list of connections.
pub open spec fn first_of(pairs: Seq<(Vec<char>, Vec<char>)>, i: int) -> Seq<char> {
    pairs[i].0@
}

/// The second name of a connection.
pub open spec fn second_of(pairs: Seq<(Vec<char>, Vec<char>)>, i: int) -> Seq<char> {
    pairs[i].1@
}

impl Connections {
    /// Every computer has its list of connections, the lists name
    /// computers of the network, and no two computers have the same name.
    pub open spec fn wf(&self) -> bool {
        &&& self.links.len() == self.names.len()
        &&& forall|a: int, k: int|
            0 <= a < self.links.len() && 0 <= k < self.links[a].len() ==> (
            #[trigger] self.links[a][k]) < self.names.len()
        &&& forall|a: int, b: int|
            0 <= a < self.names.len() && 0 <= b < self.names.len() && a != b ==> (
            #[trigger] self.names[a])@ != (#[trigger] self.names[b])@
    }

    /// Whether computer `a` lists computer `b` among its connections.
    pub open spec fn linked(&self, a: int, b: int) -> bool {
        0 <= a < self.links.len() && 0 <= b < self.names.len() && self.links[a]@.contains(
            b as usize,
        )
    }

    /// The index of the computer with a name; the number of computers if
    /// there is none.
    pub open spec fn named(&self, name: Seq<char>) -> int {
        index_in(rows(self.names@), name, 0)
    }
}

/// The index of the first item of a list, from `from` on, that is `name`;
/// the length of the list if there is none.
pub open spec fn index_in(names: Seq<Seq<char>>, name: Seq<char>, from: int) -> int
    decreases names.len() - from,
{
    if from >= names.len() {
        names.len() as int
    } else if names[from] == name {
        from
    } else {
        index_in(names, name, from + 1)
    }
}

/// The index that a search for a name gives is the first at which the name stands.
pub proof fn lemma_index_in(names: Seq<Seq<char>>, name: Seq<char>, from: int)
    requires
        0 <= from,
    ensures
        from <= index_in(names, name, from) || index_in(names, name, from) == names.len(),
        index_in(names, name, from) <= names.len(),
        index_in(names, name, from) < names.len() ==> names[index_in(names, name, from)] == name,
        forall|i: int| from <= i < index_in(names, name, from) ==> #[trigger] names[i] != name,
    decreases names.len() - from,
{
    if from < names.len() && names[from] != name {
        lemma_index_in(names, name, from + 1);
    }
}

/// The index of the computer with a name.
fn find_name(names: &Vec<Vec<char>>, name: &Vec<char>) -> (r: usize)
    ensures
        r == index_in(rows(names@), name@, 0),
        r <= names.len(),
{
    let mut i: usize = 0;
    while i < names.len()
        invariant
            i <= names.len(),
            index_in(rows(names@), name@, 0) == index_in(rows(names@), name@, i as int),
        decreases names.len() - i,
    {
        assert(rows(names@)[i as int] == names[i as int]@);
        if same_text(&names[i], name) {
            return i;
        }
        i += 1;
    }
    i
}

/// A copy of a name.
fn copy_name(name: &Vec<char>) -> (r: Vec<char>)
    ensures
        r@ == name@,
{
    let mut out: Vec<char> = Vec::new();
    let mut i: usize = 0;
    while i < name.len()
        invariant
            i <= name.len(),
            out@ == name@.take(i as int),
        decreases name.len() - i,
    {
        out.push(name[i]);
        i += 1;
        assert(out@ =~= name@.take(i as int));
    }
    assert(name@.take(name.len() as int) =~= name@);
    out
}

/// Whether a list of computers by index holds a computer.
fn lists(list: &Vec<usize>, b: usize) -> (r: bool)
    ensures
        r == list@.contains(b),
{
    let mut i: usize = 0;
    while i < list.len()
        invariant
            i <= list.len(),
            forall|k: int| 0 <= k < i ==> list[k] != b,
        decreases list.len() - i,
    {
        if list[i] == b {
            return true;
        }
        i += 1;
    }
    false
}

/// The connection that a line such as `kh-tc` states. Anything after a
/// second dash is not looked at.
pub open spec fn connection_of(line: Seq<char>) -> Option<(Seq<char>, Seq<char>)> {
    let p = pieces(line, '-');
    if p.len() >= 2 {
        Some((p[0], p[1]))
    } else {
        None
    }
}

/// Whether every line of a text states a connection.
pub open spec fn well_formed(text: Seq<char>) -> bool {
    forall|i: int| 0 <= i < lines(text).len() ==> connection_of(#[trigger] lines(text)[i]) is Some
}

/// Reads one connection per line: two names with a dash between them.
/// Fails when a line has no dash.
pub fn parse(input: &str) -> (r: Result<Vec<(Vec<char>, Vec<char>)>, PuzzleError>)
    ensures
        match r {
            Ok(pairs) => {
                &&& well_formed(input@)
                &&& pairs.len() == lines(input@).len()
                &&& forall|i: int|
                    0 <= i < pairs.len() ==> connection_of(#[trigger] lines(input@)[i]) == Some(
                        (pairs[i].0@, pairs[i].1@),
                    )
            },
            Err(e) => e == PuzzleError::MalformedInput && !well_formed(input@),
        },
{
    let text = chars_of(input);
    let all = split_lines(&text);
    let mut out: Vec<(Vec<char>, Vec<char>)> = Vec::new();
    let mut i: usize = 0;
    assert(rows(all@).len() == all.len());
    while i < all.len()
        invariant
            i <= all.len(),
            rows(all@) == lines(input@),
            all.len() == lines(input@).len(),
            out.len() == i,
            forall|k: int|
                0 <= k < i ==> connection_of(#[trigger] lines(input@)[k]) == Some(
                    (out[k].0@, out[k].1@),
                ),
        decreases all.len() - i,
    {
        assert(lines(input@)[i as int] == all[i as int]@);
        let p = split_char(&all[i], '-');
        assert(rows(p@).len() == p.len());
        if p.len() < 2 {
            return Err(PuzzleError::MalformedInput);
        }
        assert(rows(p@)[0] == p[0]@ && rows(p@)[1] == p[1]@);
        let a = copy_name(&p[0]);
        let b = copy_name(&p[1]);
        out.push((a, b));
        i += 1;
    }
    Ok(out)
}

/// Whether one of the first `k` connections of a list connects the
/// computers `a` and `b`, in either direction.
pub open spec fn stated(conn: Connections, pairs: Seq<(Vec<char>, Vec<char>)>, k: int, a: int, b: int) -> bool {
    exists|i: int|
        0 <= i < k && ((conn.names[a]@ == #[trigger] first_of(pairs, i) && conn.names[b]@
            == second_of(pairs, i)) || (conn.names[a]@ == second_of(pairs, i) && conn.names[b]@
            == first_of(pairs, i)))
}

/// Whether the network has the two computers of the `i`-th connection of
/// a list and links them in both directions.
pub open spec fn entered(conn: Connections, pairs: Seq<(Vec<char>, Vec<char>)>, i: int) -> bool {
    exists|a: int, b: int|
        0 <= a < conn.names.len() && 0 <= b < conn.names.len() && conn.names[a]@ == first_of(
            pairs,
            i,
        ) && conn.names[b]@ == second_of(pairs, i) && #[trigger] conn.linked(a, b) && conn.linked(
            b,
            a,
        )
}

/// Whether a network is made of the first `k` connections of a list: it
/// links exactly the computers that one of them connects.
pub open spec fn made_of(conn: Connections, pairs: Seq<(Vec<char>, Vec<char>)>, k: int) -> bool {
    &&& conn.wf()
    &&& forall|a: int| 0 <= a < conn.links.len() ==> (#[trigger] conn.links[a]).len() <= 2 * k
    &&& forall|a: int, b: int| #[trigger] conn.linked(a, b) ==> stated(conn, pairs, k, a, b)
    &&& forall|i: int| 0 <= i < k ==> #[trigger] entered(conn, pairs, i)
}

/// Whether a network has grown out of another by at most one computer
/// that has no connection yet.
pub open spec fn grown(before: Connections, after: Connections) -> bool {
    &&& before.names.len() <= after.names.len() <= before.names.len() + 1
    &&& forall|a: int|
        0 <= a < before.names.len() ==> (#[trigger] after.names[a])@ == before.names[a]@
    &&& forall|a: int|
        0 <= a < before.names.len() ==> (#[trigger] after.links[a])@ == before.links[a]@
    &&& after.names.len() > before.names.len() ==> after.links[before.names.len() as int]@.len()
        == 0
}

/// Finds the computer with a name, or adds it to the network.
fn intern(conn: &mut Connections, name: &Vec<char>) -> (r: usize)
    requires
        old(conn).wf(),
    ensures
        final(conn).wf(),
        grown(*old(conn), *final(conn)),
        r < final(conn).names.len(),
        final(conn).names[r as int]@ == name@,
{
    let found = find_name(&conn.names, name);
    proof {
        lemma_index_in(rows(conn.names@), name@, 0);
    }
    if found < conn.names.len() {
        assert(rows(conn.names@)[found as int] == conn.names[found as int]@);
        return found;
    }
    let ghost before = *conn;
    conn.names.push(copy_name(name));
    conn.links.push(Vec::new());
    proof {
        assert forall|a: int, b: int|
            0 <= a < conn.names.len() && 0 <= b < conn.names.len() && a != b implies (
        #[trigger] conn.names[a])@ != (#[trigger] conn.names[b])@ by {
            if a < found && b < found {
                assert(conn.names[a] == before.names[a] && conn.names[b] == before.names[b]);
            } else if a < found {
                assert(conn.names[a] == before.names[a]);
                assert(rows(before.names@)[a] == before.names[a]@);
            } else {
                assert(conn.names[b] == before.names[b]);
                assert(rows(before.names@)[b] == before.names[b]@);
            }
        }
        assert forall|a: int, k: int|
            0 <= a < conn.links.len() && 0 <= k < conn.links[a].len() implies (
        #[trigger] conn.links[a][k]) < conn.names.len() by {
            if a < found {
                assert(conn.links[a] == before.links[a]);
            }
        }
    }
    found
}

/// Links computer `a` to computer `b`.
fn link(conn: &mut Connections, a: usize, b: usize)
    requires
        old(conn).wf(),
        a < old(conn).names.len(),
        b < old(conn).names.len(),
    ensures
        final(conn).wf(),
        final(conn).names == old(conn).names,
        final(conn).links.len() == old(conn).links.len(),
        forall|x: int|
            0 <= x < old(conn).links.len() ==> (#[trigger] final(conn).links[x]).len() == old(
                conn,
            ).links[x].len() + if x == a {
                1int
            } else {
                0int
            },
        forall|x: int, y: int|
            #![trigger final(conn).linked(x, y)]
            final(conn).linked(x, y) <==> (old(conn).linked(x, y) || (x == a && y == b)),
{
    let ghost before = *conn;
    conn.links[a].push(b);
    proof {
        assert forall|x: int, y: int| #![trigger conn.linked(x, y)] conn.linked(x, y) <==> (
        before.linked(x, y) || (x == a && y == b)) by {
            if 0 <= x < conn.links.len() && 0 <= y < conn.names.len() {
                if x == a {
                    let old_list = before.links[a as int]@;
                    let new_list = conn.links[a as int]@;
                    assert(new_list == old_list.push(b));
                    if old_list.contains(y as usize) {
                        let k = choose|k: int| 0 <= k < old_list.len() && old_list[k] == y as usize;
                        assert(new_list[k] == y as usize);
                    }
                    if y == b {
                        assert(new_list[old_list.len() as int] == b);
                    }
                    if new_list.contains(y as usize) {
                        let k = choose|k: int| 0 <= k < new_list.len() && new_list[k] == y as usize;
                        if k < old_list.len() {
                            assert(old_list[k] == y as usize);
                        }
                    }
                } else {
                    assert(conn.links[x] == before.links[x]);
                }
            }
        }
        assert forall|x: int, k: int|
            0 <= x < conn.links.len() && 0 <= k < conn.links[x].len() implies (
        #[trigger] conn.links[x][k]) < conn.names.len() by {
            if x != a {
                assert(conn.links[x] == before.links[x]);
            } else if k < before.links[a as int].len() {
                assert(conn.links[x][k] == before.links[x][k]);
            }
        }
    }
}

/// A network that has grown links the computers that it linked before.
proof fn lemma_grown_links(before: Connections, after: Connections)
    requires
        before.wf(),
        after.wf(),
        grown(before, after),
    ensures
        forall|x: int, y: int|
            #![trigger after.linked(x, y)]
            after.linked(x, y) <==> before.linked(x, y),
{
    assert forall|x: int, y: int| #![trigger after.linked(x, y)] after.linked(x, y)
        <==> before.linked(x, y) by {
        if 0 <= x < before.links.len() {
            assert(after.links[x]@ == before.links[x]@);
        } else if x == before.links.len() && after.links.len() > before.links.len() {
            assert(after.links[x]@.len() == 0);
        }
    }
}

/// Builds the network that a list of connections makes: a computer for
/// every name, and a link in both directions for every connection.
pub fn get_all_connections(single_connections: &Vec<(Vec<char>, Vec<char>)>) -> (conn: Connections)
    ensures
        made_of(conn, single_connections@, single_connections.len() as int),
{
    let ghost pairs = single_connections@;
    let mut conn = Connections { names: Vec::new(), links: Vec::new() };
    let mut k: usize = 0;
    while k < single_connections.len()
        invariant
            k <= single_connections.len(),
            pairs == single_connections@,
            made_of(conn, pairs, k as int),
        decreases single_connections.len() - k,
    {
        let ghost c0 = conn;
        let a = intern(&mut conn, &single_connections[k].0);
        let ghost c1 = conn;
        let b = intern(&mut conn, &single_connections[k].1);
        let ghost c2 = conn;
        link(&mut conn, a, b);
        let ghost c3 = conn;
        link(&mut conn, b, a);
        proof {
            lemma_grown_links(c0, c1);
            lemma_grown_links(c1, c2);
            assert forall|x: int| 0 <= x < conn.links.len() implies (#[trigger] conn.links[x]).len()
                <= 2 * (k + 1) by {
                assert(conn.links[x].len() <= c3.links[x].len() + 1);
                assert(c3.links[x].len() <= c2.links[x].len() + 1);
                if x < c0.links.len() {
                    assert(c1.links[x]@ == c0.links[x]@);
                    assert(c2.links[x]@ == c1.links[x]@);
                } else if x < c1.links.len() {
                    assert(c2.links[x]@ == c1.links[x]@);
                    assert(c1.links[x]@.len() == 0);
                } else {
                    assert(c2.links[x]@.len() == 0);
                }
            }
            assert(c2.names[a as int]@ == first_of(pairs, k as int));
            assert(c2.names[b as int]@ == second_of(pairs, k as int));
            assert forall|x: int| 0 <= x < c0.names.len() implies (#[trigger] conn.names[x])@
                == c0.names[x]@ by {
                assert(c1.names[x]@ == c0.names[x]@);
                assert(c2.names[x]@ == c1.names[x]@);
            }
            assert forall|x: int, y: int| #[trigger] conn.linked(x, y) implies stated(
                conn,
                pairs,
                k + 1,
                x,
                y,
            ) by {
                if c0.linked(x, y) {
                    assert(stated(c0, pairs, k as int, x, y));
                    let i = choose|i: int|
                        0 <= i < k && ((c0.names[x]@ == #[trigger] first_of(pairs, i)
                            && c0.names[y]@ == second_of(pairs, i)) || (c0.names[x]@ == second_of(
                            pairs,
                            i,
                        ) && c0.names[y]@ == first_of(pairs, i)));
                    assert(c0.links[x]@.contains(y as usize));
                    let n = choose|n: int| 0 <= n < c0.links[x].len() && c0.links[x][n] == y as usize;
                    assert(c0.links[x][n] < c0.names.len());
                    assert(conn.names[x]@ == c0.names[x]@ && conn.names[y]@ == c0.names[y]@);
                    assert(0 <= i < k + 1 && ((conn.names[x]@ == first_of(pairs, i)
                        && conn.names[y]@ == second_of(pairs, i)) || (conn.names[x]@ == second_of(
                        pairs,
                        i,
                    ) && conn.names[y]@ == first_of(pairs, i))));
                } else {
                    assert((x == a && y == b) || (x == b && y == a));
                    assert(first_of(pairs, k as int) == pairs[k as int].0@);
                }
            }
            assert forall|i: int| 0 <= i < k + 1 implies #[trigger] entered(conn, pairs, i) by {
                if i < k {
                    assert(entered(c0, pairs, i));
                    let (x, y) = choose|x: int, y: int|
                        0 <= x < c0.names.len() && 0 <= y < c0.names.len() && c0.names[x]@
                            == first_of(pairs, i) && c0.names[y]@ == second_of(pairs, i)
                            && #[trigger] c0.linked(x, y) && c0.linked(y, x);
                    assert(conn.names[x]@ == c0.names[x]@ && conn.names[y]@ == c0.names[y]@);
                    assert(conn.linked(x, y) && conn.linked(y, x));
                } else {
                    assert(conn.linked(a as int, b as int) && conn.linked(b as int, a as int));
                }
            }
        }
        k += 1;
    }
    conn
}

/// Whether three computers, named in rising order of their indices, are
/// all linked to each other.
pub open spec fn triangle(conn: Connections, i: int, j: int, k: int) -> bool {
    &&& 0 <= i < j < k < conn.names.len()
    &&& conn.linked(i, j)
    &&& conn.linked(i, k)
    &&& conn.linked(j, k)
}

/// Whether the triple `(i, j, k)` comes before `(a, b, c)` in the order of
/// a dictionary.
pub open spec fn sooner(i: int, j: int, k: int, a: int, b: int, c: int) -> bool {
    i < a || (i == a && (j < b || (j == b && k < c)))
}

/// The triple of a list, as integers.
pub open spec fn triple_at(trios: Seq<(usize, usize, usize)>, n: int) -> (int, int, int) {
    (trios[n].0 as int, trios[n].1 as int, trios[n].2 as int)
}

/// Whether a list holds the triangles of a network that come before
/// `(a, b, c)`, each once, in the order of a dictionary.
pub open spec fn lists_trios(conn: Connections, trios: Seq<(usize, usize, usize)>, a: int, b: int, c: int) -> bool {
    &&& forall|n: int|
        0 <= n < trios.len() ==> triangle(
            conn,
            (#[trigger] triple_at(trios, n)).0,
            triple_at(trios, n).1,
            triple_at(trios, n).2,
        ) && sooner(triple_at(trios, n).0, triple_at(trios, n).1, triple_at(trios, n).2, a, b, c)
    &&& forall|m: int, n: int|
        0 <= m < n < trios.len() ==> sooner(
            (#[trigger] triple_at(trios, m)).0,
            triple_at(trios, m).1,
            triple_at(trios, m).2,
            (#[trigger] triple_at(trios, n)).0,
            triple_at(trios, n).1,
            triple_at(trios, n).2,
        )
    &&& forall|i: int, j: int, k: int|
        #[trigger] triangle(conn, i, j, k) && sooner(i, j, k, a, b, c) ==> trios.contains(
            (i as usize, j as usize, k as usize),
        )
}

/// Whether a list holds all triangles of a network, each once, in the
/// order of a dictionary.
pub open spec fn all_trios(conn: Connections, trios: Seq<(usize, usize, usize)>) -> bool {
    lists_trios(conn, trios, conn.names.len() as int, 0, 0)
}

/// Whether computer `a` lists computer `b` among its connections.
fn is_linked(conn: &Connections, a: usize, b: usize) -> (r: bool)
    requires
        conn.wf(),
        a < conn.names.len(),
        b < conn.names.len(),
    ensures
        r == conn.linked(a as int, b as int),
{
    lists(&conn.links[a], b)
}

/// Lists the groups of three computers that are all linked to each other,
/// each group once, its computers by rising index.
pub fn get_all_trios(connections: &Connections) -> (r: Vec<(usize, usize, usize)>)
    requires
        connections.wf(),
    ensures
        all_trios(*connections, r@),
{
    let n = connections.names.len();
    let mut out: Vec<(usize, usize, usize)> = Vec::new();
    let mut i: usize = 0;
    while i < n
        invariant
            i <= n,
            n == connections.names.len(),
            connections.wf(),
            lists_trios(*connections, out@, i as int, 0, 0),
        decreases n - i,
    {
        let mut j: usize = i + 1;
        proof {
            lemma_step(*connections, out@, i as int, 0, 0, i as int, i + 1, 0);
        }
        while j < n
            invariant
                i < n,
                i < j <= n,
                n == connections.names.len(),
                connections.wf(),
                lists_trios(*connections, out@, i as int, j as int, 0),
            decreases n - j,
        {
            if is_linked(connections, i, j) {
                let mut k: usize = j + 1;
                proof {
                    lemma_step(*connections, out@, i as int, j as int, 0, i as int, j as int, j + 1);
                }
                while k < n
                    invariant
                        i < j < n,
                        j < k <= n,
                        n == connections.names.len(),
                        connections.wf(),
                        connections.linked(i as int, j as int),
                        lists_trios(*connections, out@, i as int, j as int, k as int),
                    decreases n - k,
                {
                    if is_linked(connections, i, k) && is_linked(connections, j, k) {
                        let ghost before = out@;
                        out.push((i, j, k));
                        proof {
                            assert(triple_at(out@, before.len() as int) == (
                                i as int,
                                j as int,
                                k as int,
                            ));
                            assert forall|m: int| 0 <= m < before.len() implies #[trigger] triple_at(
                                out@,
                                m,
                            ) == triple_at(before, m) by {}
                            assert forall|x: int, y: int, z: int|
                                #[trigger] triangle(*connections, x, y, z) && sooner(
                                    x,
                                    y,
                                    z,
                                    i as int,
                                    j as int,
                                    k + 1,
                                ) implies out@.contains((x as usize, y as usize, z as usize)) by {
                                if x == i && y == j && z == k {
                                    assert(out@[before.len() as int] == (i, j, k));
                                } else {
                                    let t = (x as usize, y as usize, z as usize);
                                    assert(before.contains(t));
                                    let m = choose|m: int| 0 <= m < before.len() && before[m] == t;
                                    assert(out@[m] == t);
                                }
                            }
                        }
                    } else {
                        proof {
                            lemma_step(
                                *connections,
                                out@,
                                i as int,
                                j as int,
                                k as int,
                                i as int,
                                j as int,
                                k + 1,
                            );
                        }
                    }
                    k += 1;
                }
            }
            proof {
                assert forall|x: int, y: int, z: int|
                    #[trigger] triangle(*connections, x, y, z) && sooner(
                        x,
                        y,
                        z,
                        i as int,
                        j + 1,
                        0,
                    ) implies out@.contains((x as usize, y as usize, z as usize)) by {
                    if x == i && y == j {
                        assert(sooner(x, y, z, i as int, j as int, n as int));
                    } else {
                        assert(sooner(x, y, z, i as int, j as int, 0));
                    }
                }
            }
            j += 1;
        }
        proof {
            assert forall|x: int, y: int, z: int|
                #[trigger] triangle(*connections, x, y, z) && sooner(
                    x,
                    y,
                    z,
                    i + 1,
                    0,
                    0,
                ) implies out@.contains((x as usize, y as usize, z as usize)) by {
                assert(sooner(x, y, z, i as int, n as int, 0));
            }
        }
        i += 1;
    }
    out
}

/// A list that holds the triangles before one triple holds those before a
/// later triple, if no triangle lies between the two.
proof fn lemma_step(conn: Connections, trios: Seq<(usize, usize, usize)>, a: int, b: int, c: int, a2: int, b2: int, c2: int)
    requires
        lists_trios(conn, trios, a, b, c),
        forall|i: int, j: int, k: int|
            #[trigger] sooner(i, j, k, a, b, c) ==> sooner(i, j, k, a2, b2, c2),
        forall|i: int, j: int, k: int|
            #[trigger] triangle(conn, i, j, k) && sooner(i, j, k, a2, b2, c2) ==> sooner(
                i,
                j,
                k,
                a,
                b,
                c,
            ),
    ensures
        lists_trios(conn, trios, a2, b2, c2),
{
    assert forall|n: int| 0 <= n < trios.len() implies triangle(
        conn,
        (#[trigger] triple_at(trios, n)).0,
        triple_at(trios, n).1,
        triple_at(trios, n).2,
    ) && sooner(triple_at(trios, n).0, triple_at(trios, n).1, triple_at(trios, n).2, a2, b2, c2) by {
        assert(sooner(triple_at(trios, n).0, triple_at(trios, n).1, triple_at(trios, n).2, a, b, c));
    }
}

/// Whether the name of a computer begins with a `t`.
pub open spec fn marked(conn: Connections, i: int) -> bool {
    conn.names[i].len() >= 1 && conn.names[i][0] == 't'
}

/// The groups of three, by their place in a list, of which a computer has
/// a name that begins with a `t`.
pub open spec fn with_t(conn: Connections, trios: Seq<(usize, usize, usize)>) -> spec_fn(int) -> bool {
    |n: int|
        marked(conn, triple_at(trios, n).0) || marked(conn, triple_at(trios, n).1) || marked(
            conn,
            triple_at(trios, n).2,
        )
}

/// Whether the name of a computer begins with a `t`.
fn begins_with_t(conn: &Connections, i: usize) -> (r: bool)
    requires
        i < conn.names.len(),
    ensures
        r == marked(*conn, i as int),
{
    conn.names[i].len() >= 1 && conn.names[i][0] == 't'
}

/// Counts the groups of three computers that are all linked to each
/// other and of which one at least has a name that begins with a `t`.
pub fn get_all_trios_with_t(connections: &Connections) -> (r: usize)
    requires
        connections.wf(),
    ensures
        exists|trios: Seq<(usize, usize, usize)>| #[trigger]
            all_trios(*connections, trios) && r == count_below(
                trios.len() as int,
                with_t(*connections, trios),
            ),
{
    let trios = get_all_trios(connections);
    let mut count: usize = 0;
    let mut n: usize = 0;
    while n < trios.len()
        invariant
            n <= trios.len(),
            connections.wf(),
            all_trios(*connections, trios@),
            count == count_below(n as int, with_t(*connections, trios@)),
        decreases trios.len() - n,
    {
        proof {
            lemma_count_bound(n as int, with_t(*connections, trios@));
            assert(triangle(
                *connections,
                triple_at(trios@, n as int).0,
                triple_at(trios@, n as int).1,
                triple_at(trios@, n as int).2,
            ));
        }
        let (i, j, k) = trios[n];
        if begins_with_t(connections, i) || begins_with_t(connections, j) || begins_with_t(
            connections,
            k,
        ) {
            count += 1;
        }
        n += 1;
    }
    count
}

/// Whether any two different computers of a list are linked.
pub open spec fn all_linked(conn: Connections, c: Seq<usize>) -> bool {
    forall|x: int, y: int|
        0 <= x < c.len() && 0 <= y < c.len() && c[x] != c[y] ==> conn.linked(
            #[trigger] c[x] as int,
            #[trigger] c[y] as int,
        )
}

/// Whether computer `s` and the computers `c` make a party of the given
/// size: the computers are taken from the connections of `s`, one less
/// than the size, and any two different ones of them are linked.
pub open spec fn is_party(conn: Connections, size: int, s: int, c: Seq<usize>) -> bool {
    &&& 0 <= s < conn.names.len()
    &&& chosen(conn.links[s]@, size - 1, c)
    &&& all_linked(conn, c)
}

/// The names of the computers of a party.
pub open spec fn guests(conn: Connections, s: int, c: Seq<usize>) -> Seq<Seq<char>> {
    Seq::new(
        c.len() + 1,
        |i: int|
            if i < c.len() {
                conn.names[c[i] as int]@
            } else {
                conn.names[s]@
            },
    )
}

/// Whether a text lists the names of a party in the order of a
/// dictionary, with commas between them.
pub open spec fn announces(conn: Connections, s: int, c: Seq<usize>, text: Seq<char>) -> bool {
    exists|sorted: Seq<Seq<char>>|
        {
            &&& #[trigger] sorted.to_multiset() == guests(conn, s, c).to_multiset()
            &&& forall|i: int, j: int|
                0 <= i < j < sorted.len() ==> in_order(#[trigger] sorted[i], #[trigger] sorted[j])
            &&& text == joined_with(sorted, seq![','], sorted.len() as int)
        }
}

/// Whether any two different computers of a list are linked.
fn check_all_linked(conn: &Connections, combo: &Vec<usize>) -> (r: bool)
    requires
        conn.wf(),
        forall|i: int| 0 <= i < combo.len() ==> (#[trigger] combo[i]) < conn.names.len(),
    ensures
        r == all_linked(*conn, combo@),
{
    let mut x: usize = 0;
    while x < combo.len()
        invariant
            x <= combo.len(),
            conn.wf(),
            forall|i: int| 0 <= i < combo.len() ==> (#[trigger] combo[i]) < conn.names.len(),
            forall|a: int, b: int|
                0 <= a < x && 0 <= b < combo.len() && combo[a] != combo[b] ==> conn.linked(
                    #[trigger] combo[a] as int,
                    #[trigger] combo[b] as int,
                ),
        decreases combo.len() - x,
    {
        let mut y: usize = 0;
        while y < combo.len()
            invariant
                x < combo.len(),
                y <= combo.len(),
                conn.wf(),
                forall|i: int| 0 <= i < combo.len() ==> (#[trigger] combo[i]) < conn.names.len(),
                forall|a: int, b: int|
                    0 <= a < x && 0 <= b < combo.len() && combo[a] != combo[b] ==> conn.linked(
                        #[trigger] combo[a] as int,
                        #[trigger] combo[b] as int,
                    ),
                forall|b: int|
                    0 <= b < y && combo[x as int] != combo[b] ==> conn.linked(
                        combo[x as int] as int,
                        #[trigger] combo[b] as int,
                    ),
            decreases combo.len() - y,
        {
            if combo[x] != combo[y] && !is_linked(conn, combo[x], combo[y]) {
                return false;
            }
            y += 1;
        }
        x += 1;
    }
    true
}

/// The computers of a combination are among the connections it is taken from.
proof fn lemma_chosen_from(items: Seq<usize>, k: int, combo: Seq<usize>, i: int)
    requires
        chosen(items, k, combo),
        0 <= i < combo.len(),
    ensures
        items.contains(combo[i]),
        combo.len() == k,
{
    let p = choose|p: Seq<int>|
        p.len() == k && rising_below(p, items.len() as int) && combo == #[trigger] picked(items, p);
    assert(items[p[i]] == combo[i]);
}

/// Finds computers that make a party of the given size, and lists their
/// names in the order of a dictionary, with commas between them. `None`
/// when no computers make such a party.
pub fn get_party_of_size_n(connections: &Connections, size: usize) -> (r: Option<String>)
    requires
        connections.wf(),
        size >= 1,
    ensures
        match r {
            Some(text) => exists|s: int, c: Seq<usize>| #[trigger]
                is_party(*connections, size as int, s, c) && announces(*connections, s, c, text@),
            None => forall|s: int, c: Seq<usize>| !#[trigger] is_party(*connections, size as int, s, c),
        },
{
    let n = connections.names.len();
    let mut s: usize = 0;
    while s < n
        invariant
            s <= n,
            n == connections.names.len(),
            connections.wf(),
            size >= 1,
            forall|s2: int, c: Seq<usize>|
                0 <= s2 < s ==> !#[trigger] is_party(*connections, size as int, s2, c),
        decreases n - s,
    {
        let combos = combinations(&connections.links[s], size - 1);
        let mut k: usize = 0;
        while k < combos.len()
            invariant
                s < n,
                k <= combos.len(),
                n == connections.names.len(),
                connections.wf(),
                size >= 1,
                forall|c: int|
                    0 <= c < combos.len() ==> chosen(
                        connections.links[s as int]@,
                        size - 1,
                        (#[trigger] combos[c])@,
                    ),
                forall|c: int| 0 <= c < k ==> !all_linked(*connections, (#[trigger] combos[c])@),
            decreases combos.len() - k,
        {
            let combo = &combos[k];
            proof {
                assert forall|i: int| 0 <= i < combo.len() implies (#[trigger] combo[i])
                    < connections.names.len() by {
                    lemma_chosen_from(connections.links[s as int]@, size - 1, combo@, i);
                    let list = connections.links[s as int]@;
                    let m = choose|m: int| 0 <= m < list.len() && list[m] == combo[i];
                    assert(connections.links[s as int][m] < connections.names.len());
                }
            }
            if check_all_linked(connections, combo) {
                let mut members: Vec<Vec<char>> = Vec::new();
                let mut i: usize = 0;
                while i < combo.len()
                    invariant
                        i <= combo.len(),
                        s < connections.names.len(),
                        forall|i: int|
                            0 <= i < combo.len() ==> (#[trigger] combo[i]) < connections.names.len(),
                        members.len() == i,
                        forall|m: int|
                            0 <= m < i ==> (#[trigger] members[m])@
                                == connections.names[combo[m] as int]@,
                    decreases combo.len() - i,
                {
                    members.push(copy_name(&connections.names[combo[i]]));
                    i += 1;
                }
                members.push(copy_name(&connections.names[s]));
                assert(rows(members@) =~= guests(*connections, s as int, combo@));
                let sorted = sort_names(members);
                proof {
                    reveal_strlit(",");
                    assert(","@ =~= seq![',']);
                }
                let text = join(&sorted, ",");
                proof {
                    assert(is_party(*connections, size as int, s as int, combo@));
                    let names = rows(sorted@);
                    assert(rows(sorted@).len() == sorted.len());
                    assert forall|i: int, j: int| 0 <= i < j < names.len() implies in_order(
                        #[trigger] names[i],
                        #[trigger] names[j],
                    ) by {
                        assert(names[i] == sorted[i]@ && names[j] == sorted[j]@);
                    }
                    assert(names.to_multiset() == guests(*connections, s as int, combo@).to_multiset());
                    assert(announces(*connections, s as int, combo@, text@));
                }
                return Some(text);
            }
            k += 1;
        }
        proof {
            assert forall|s2: int, c: Seq<usize>| 0 <= s2 < s + 1 implies !#[trigger] is_party(
                *connections,
                size as int,
                s2,
                c,
            ) by {
                if s2 == s && is_party(*connections, size as int, s2, c) {
                    let p = choose|p: Seq<int>|
                        p.len() == size - 1 && rising_below(
                            p,
                            connections.links[s as int]@.len() as int,
                        ) && c == #[trigger] picked(connections.links[s as int]@, p);
                    assert(offers(combos@, picked(connections.links[s as int]@, p)));
                    let m = choose|m: int| 0 <= m < combos.len() && (#[trigger] combos[m])@ == c;
                    assert(!all_linked(*connections, combos[m]@));
                }
            }
        }
        s += 1;
    }
    None
}

/// Positions in rising order are no more than there are positions.
proof fn lemma_rising_len_all(p: Seq<int>, n: int)
    requires
        rising_below(p, n),
        n >= 0,
    ensures
        p.len() <= n,
{
    if p.len() > 0 {
        lemma_rising_reach(p, n, p.len() - 1);
    }
}

/// A position in a rising list is at least its place in the list.
proof fn lemma_rising_reach(p: Seq<int>, n: int, i: int)
    requires
        rising_below(p, n),
        0 <= i < p.len(),
    ensures
        i <= p[i],
    decreases i,
{
    if i > 0 {
        lemma_rising_reach(p, n, i - 1);
        assert(p[i - 1] < p[i]);
    }
}

/// Whether no computer has so many connections that a party of all of
/// them could not be counted in a machine word.
pub open spec fn countable(conn: Connections) -> bool {
    forall|a: int| 0 <= a < conn.links.len() ==> (#[trigger] conn.links[a]).len() < usize::MAX - 2
}

/// Whether a text announces a largest party of a network: a party of some
/// size, at least three, such that there is no party of the next size; or
/// whether the text is empty and there is no party of three.
pub open spec fn announces_largest(conn: Connections, text: Seq<char>) -> bool {
    exists|m: int| #[trigger] largest_of_size(conn, m, text)
}

/// Whether a text announces a party of `m` computers, or is empty if `m`
/// is two, and there is no party of `m + 1` computers.
pub open spec fn largest_of_size(conn: Connections, m: int, text: Seq<char>) -> bool {
    &&& m >= 2
    &&& forall|s: int, c: Seq<usize>| !#[trigger] is_party(conn, m + 1, s, c)
    &&& if m == 2 {
        text.len() == 0
    } else {
        exists|s: int, c: Seq<usize>| #[trigger]
            is_party(conn, m, s, c) && announces(conn, s, c, text)
    }
}

/// The most connections that a computer has.
fn most_links(conn: &Connections) -> (r: usize)
    ensures
        forall|a: int| 0 <= a < conn.links.len() ==> (#[trigger] conn.links[a]).len() <= r,
        conn.links.len() == 0 ==> r == 0,
        conn.links.len() > 0 ==> exists|a: int|
            0 <= a < conn.links.len() && (#[trigger] conn.links[a]).len() == r,
{
    let mut most: usize = 0;
    let mut a: usize = 0;
    while a < conn.links.len()
        invariant
            a <= conn.links.len(),
            forall|k: int| 0 <= k < a ==> (#[trigger] conn.links[k]).len() <= most,
            a == 0 ==> most == 0,
            a > 0 ==> exists|k: int| 0 <= k < a && (#[trigger] conn.links[k]).len() == most,
        decreases conn.links.len() - a,
    {
        if conn.links[a].len() > most || a == 0 {
            most = conn.links[a].len();
        }
        a += 1;
    }
    most
}

/// Finds a largest party: computers, three at least, that are all linked
/// to each other, and more of them than which no such computers are
/// found. Lists their names in the order of a dictionary, with commas
/// between them; the text is empty when not even three computers are all
/// linked to each other.
pub fn get_biggest_lan_party(connections: &Connections) -> (r: String)
    requires
        connections.wf(),
        countable(*connections),
    ensures
        announces_largest(*connections, r@),
{
    let limit = most_links(connections);
    let mut comb: usize = 3;
    let mut largest_party = String::new();
    loop
        invariant_except_break
            connections.wf(),
            3 <= comb <= limit + 3,
            limit < usize::MAX - 2,
            forall|a: int|
                0 <= a < connections.links.len() ==> (#[trigger] connections.links[a]).len()
                    <= limit,
            if comb == 3 {
                largest_party@.len() == 0
            } else {
                exists|s: int, c: Seq<usize>| #[trigger]
                    is_party(*connections, comb - 1, s, c) && announces(
                        *connections,
                        s,
                        c,
                        largest_party@,
                    )
            },
        ensures
            announces_largest(*connections, largest_party@),
        decreases limit + 3 - comb,
    {
        match get_party_of_size_n(connections, comb) {
            None => {
                assert(largest_of_size(*connections, comb - 1, largest_party@));
                break ;
            },
            Some(text) => {
                proof {
                    let (s, c) = choose|s: int, c: Seq<usize>| #[trigger]
                        is_party(*connections, comb as int, s, c) && announces(
                            *connections,
                            s,
                            c,
                            text@,
                        );
                    let p = choose|p: Seq<int>|
                        p.len() == comb - 1 && rising_below(
                            p,
                            connections.links[s]@.len() as int,
                        ) && c == #[trigger] picked(connections.links[s]@, p);
                    lemma_rising_len_all(p, connections.links[s]@.len() as int);
                    assert(connections.links[s].len() <= limit);
                }
                let ghost found = text@;
                let ghost size = comb as int;
                largest_party = text;
                comb += 1;
                proof {
                    let (s, c) = choose|s: int, c: Seq<usize>| #[trigger]
                        is_party(*connections, size, s, c) && announces(*connections, s, c, found);
                    assert(is_party(*connections, comb - 1, s, c) && announces(
                        *connections,
                        s,
                        c,
                        largest_party@,
                    ));
                }
            },
        }
    }
    largest_party
}

/// Whether a list of connections is what the lines of a text state.
pub open spec fn reads_as(pairs: Seq<(Vec<char>, Vec<char>)>, text: Seq<char>) -> bool {
    &&& pairs.len() == lines(text).len()
    &&& forall|i: int|
        0 <= i < pairs.len() ==> connection_of(#[trigger] lines(text)[i]) == Some(
            (pairs[i].0@, pairs[i].1@),
        )
}

/// Whether a network is the one that the connections of a text make.
pub open spec fn network_of(conn: Connections, text: Seq<char>) -> bool {
    exists|pairs: Seq<(Vec<char>, Vec<char>)>| #[trigger]
        reads_as(pairs, text) && made_of(conn, pairs, pairs.len() as int)
}

/// Both answers for a network given as text: the number of groups of three
/// computers that are all linked to each other and of which one has a
/// name that begins with a `t`, and the names of a largest party. Fails
/// when a line has no dash.
pub fn solve(input: &str) -> (r: Result<(usize, String), PuzzleError>)
    requires
        2 * lines(input@).len() < usize::MAX - 2,
    ensures
        match r {
            Ok((groups, party)) => {
                &&& well_formed(input@)
                &&& exists|conn: Connections, trios: Seq<(usize, usize, usize)>| #[trigger]
                    all_trios(conn, trios) && network_of(conn, input@) && groups == count_below(
                        trios.len() as int,
                        with_t(conn, trios),
                    ) && announces_largest(conn, party@)
            },
            Err(e) => e == PuzzleError::MalformedInput && !well_formed(input@),
        },
{
    let pairs = match parse(input) {
        Ok(p) => p,
        Err(e) => {
            return Err(e);
        },
    };
    let connections = get_all_connections(&pairs);
    assert(reads_as(pairs@, input@));
    assert(network_of(connections, input@));
    let groups = get_all_trios_with_t(&connections);
    let party = get_biggest_lan_party(&connections);
    Ok((groups, party))
}

} // verus!
